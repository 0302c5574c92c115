//! First-in-first-out matching of sales against earlier buys.
//!
//! A wallet's transaction log has no cost basis, so realized profit is
//! rebuilt by matching each sale against the oldest unsold buys of the same
//! item. This module does the matching on unit counts: which buy each sold
//! unit came from, and which bought units are still held. Prices and the
//! money figures built from them are applied to the result by the caller.

use vstd::prelude::*;
use crate::text::{seq_lt, lemma_seq_lt_order, str_lt};

verus! {

/// The part of a wallet transaction the matcher reads.
#[derive(Debug, Clone, PartialEq)]
pub struct TradeEntry {
    pub type_id: i64,
    pub quantity: i64,
    pub is_buy: bool,
    /// RFC 3339 date; only used to put the log oldest first.
    pub date: String,
}

/// Units of one buy still held.
#[derive(Debug, Clone, Copy, PartialEq, Eq)]
pub struct OpenLot {
    /// Index of the buy in the log.
    pub buy: usize,
    pub type_id: i64,
    pub units: i64,
}

/// Units of one sale matched against one buy.
#[derive(Debug, Clone, Copy, PartialEq, Eq)]
pub struct Fill {
    /// Index of the sale in the log.
    pub sale: usize,
    /// Index of the buy in the log.
    pub buy: usize,
    pub units: i64,
}

/// The outcome of matching a whole log.
#[derive(Debug, Clone, PartialEq)]
pub struct FifoLedger {
    /// Trade indices in the order they were processed, oldest first.
    pub order: Vec<usize>,
    /// Every match of a sale against a buy, in the order made.
    pub fills: Vec<Fill>,
    /// Buys with units left after all sales, in the order bought.
    pub open: Vec<OpenLot>,
}

/// Trade `i` is processed before trade `j`: an earlier date (compared as
/// text, which orders RFC 3339 dates), or the same date and an earlier
/// place in the log.
pub open spec fn trade_before(ts: Seq<TradeEntry>, i: int, j: int) -> bool {
    seq_lt(ts[i].date@, ts[j].date@) || (ts[i].date@ == ts[j].date@ && i < j)
}

/// `order` lists each trade index once, oldest first (a stable sort of the
/// log by date).
pub open spec fn is_processing_order(ts: Seq<TradeEntry>, order: Seq<usize>) -> bool {
    &&& order.len() == ts.len()
    &&& forall|k: int| 0 <= k < order.len() ==> order[k] < ts.len()
    &&& forall|a: int, b: int|
        0 <= a < b < order.len() ==> #[trigger] trade_before(ts, order[a] as int, order[b] as int)
}

/// The trade indices in processing order (see [`is_processing_order`]).
pub fn processing_order(trades: &[TradeEntry]) -> (r: Vec<usize>)
    ensures
        is_processing_order(trades@, r@),
{
    let ghost ts = trades@;
    let mut v: Vec<usize> = Vec::new();
    let mut i: usize = 0;
    while i < trades.len()
        invariant
            ts == trades@,
            i <= ts.len(),
            v@.len() == i,
            forall|k: int| 0 <= k < v@.len() ==> v@[k] < i,
            forall|a: int, b: int|
                0 <= a < b < v@.len() ==> #[trigger] trade_before(ts, v@[a] as int, v@[b] as int),
        decreases ts.len() - i,
    {
        let d = trades[i].date.as_str();
        let mut p: usize = 0;
        while p < v.len()
            invariant
                ts == trades@,
                d@ == ts[i as int].date@,
                i < ts.len(),
                p <= v@.len(),
                forall|k: int| 0 <= k < v@.len() ==> v@[k] < i,
                forall|a: int| 0 <= a < p ==> !seq_lt(ts[i as int].date@, #[trigger] ts[v@[a] as int].date@),
            ensures
                p <= v@.len(),
                forall|a: int| 0 <= a < p ==> !seq_lt(ts[i as int].date@, #[trigger] ts[v@[a] as int].date@),
                p < v@.len() ==> seq_lt(ts[i as int].date@, ts[v@[p as int] as int].date@),
            decreases v@.len() - p,
        {
            let j = v[p];
            if str_lt(d, trades[j].date.as_str()) {
                break;
            }
            p += 1;
        }
        let ghost old_v = v@;
        v.insert(p, i);
        proof {
            let di = ts[i as int].date@;
            assert forall|a: int, b: int| 0 <= a < b < v@.len() implies #[trigger] trade_before(
                ts,
                v@[a] as int,
                v@[b] as int,
            ) by {
                if b < p {
                    assert(v@[a] == old_v[a] && v@[b] == old_v[b]);
                    assert(trade_before(ts, old_v[a] as int, old_v[b] as int));
                } else if b == p {
                    assert(v@[a] == old_v[a]);
                    let da = ts[old_v[a] as int].date@;
                    lemma_seq_lt_order(di, da, da);
                } else if a == p {
                    assert(v@[b] == old_v[b - 1]);
                    let dp = ts[old_v[p as int] as int].date@;
                    let db = ts[old_v[b - 1] as int].date@;
                    assert(seq_lt(di, dp));
                    if b - 1 > p {
                        assert(trade_before(ts, old_v[p as int] as int, old_v[b - 1] as int));
                    }
                    lemma_seq_lt_order(di, dp, db);
                } else if a < p {
                    assert(v@[a] == old_v[a] && v@[b] == old_v[b - 1]);
                    assert(trade_before(ts, old_v[a] as int, old_v[b - 1] as int));
                } else {
                    assert(v@[a] == old_v[a - 1] && v@[b] == old_v[b - 1]);
                    assert(trade_before(ts, old_v[a - 1] as int, old_v[b - 1] as int));
                }
            }
            assert forall|k: int| 0 <= k < v@.len() implies v@[k] < i + 1 by {
                if k < p {
                    assert(v@[k] == old_v[k]);
                } else if k > p {
                    assert(v@[k] == old_v[k - 1]);
                }
            }
        }
        i += 1;
    }
    v
}

/// An open lot as `(buy index, item type, units)`.
pub open spec fn lot_view(l: OpenLot) -> (usize, i64, int) {
    (l.buy, l.type_id, l.units as int)
}

/// Open lots as `(buy index, item type, units)`.
pub open spec fn lots_view(v: Seq<OpenLot>) -> Seq<(usize, i64, int)> {
    v.map_values(|l: OpenLot| lot_view(l))
}

/// A fill as `(sale index, buy index, units)`.
pub open spec fn fill_view(f: Fill) -> (usize, usize, int) {
    (f.sale, f.buy, f.units as int)
}

/// Fills as `(sale index, buy index, units)`.
pub open spec fn fills_view(v: Seq<Fill>) -> Seq<(usize, usize, int)> {
    v.map_values(|f: Fill| fill_view(f))
}

/// Sale `sale` of `remaining` units of item `ty` against the open `lots`
/// (oldest first): while units remain to be matched, the oldest lot of that
/// item gives up as many units as it has, or as many as remain (and is
/// dropped when it gives up all it has). Lots of other items are untouched.
/// The lots afterwards, and the fills made.
pub open spec fn match_sale(lots: Seq<(usize, i64, int)>, sale: usize, ty: i64, remaining: int) -> (
    Seq<(usize, i64, int)>,
    Seq<(usize, usize, int)>,
)
    decreases lots.len(),
{
    if lots.len() == 0 || remaining <= 0 {
        (lots, seq![])
    } else if lots[0].1 != ty {
        let r = match_sale(lots.drop_first(), sale, ty, remaining);
        (seq![lots[0]] + r.0, r.1)
    } else if remaining < lots[0].2 {
        (lots.update(0, (lots[0].0, ty, lots[0].2 - remaining)), seq![(sale, lots[0].0, remaining)])
    } else {
        let r = match_sale(lots.drop_first(), sale, ty, remaining - lots[0].2);
        (r.0, seq![(sale, lots[0].0, lots[0].2)] + r.1)
    }
}

/// The open lots and the fills after processing the trades `order` lists,
/// in that order: a buy opens a lot of its units, a sale is matched (see
/// [`match_sale`]).
pub open spec fn fifo_run(ts: Seq<TradeEntry>, order: Seq<usize>) -> (
    Seq<(usize, i64, int)>,
    Seq<(usize, usize, int)>,
)
    decreases order.len(),
{
    if order.len() == 0 {
        (seq![], seq![])
    } else {
        let prev = fifo_run(ts, order.drop_last());
        let i = order.last();
        let t = ts[i as int];
        if t.is_buy {
            (prev.0.push((i, t.type_id, t.quantity as int)), prev.1)
        } else {
            let m = match_sale(prev.0, i, t.type_id, t.quantity as int);
            (m.0, prev.1 + m.1)
        }
    }
}

/// Sale `sale` of `qty` units of item `ty` against `lots`: the lots left,
/// the fills appended to `fills` (see [`match_sale`]).
fn match_sale_exec(lots: &Vec<OpenLot>, sale: usize, ty: i64, qty: i64, fills: &mut Vec<Fill>) -> (r: Vec<
    OpenLot,
>)
    ensures
        lots_view(r@) == match_sale(lots_view(lots@), sale, ty, qty as int).0,
        fills_view(final(fills)@) == fills_view(old(fills)@) + match_sale(
            lots_view(lots@),
            sale,
            ty,
            qty as int,
        ).1,
{
    let ghost l = lots_view(lots@);
    let ghost f0 = fills_view(fills@);
    let mut kept: Vec<OpenLot> = Vec::new();
    let mut rem: i128 = qty as i128;
    let mut j: usize = 0;
    assert(l.skip(0) =~= l);
    assert(lots_view(kept@) + l =~= l);
    assert(fills_view(fills@) + match_sale(l, sale, ty, qty as int).1 =~= f0 + match_sale(l, sale, ty, qty as int).1);
    while j < lots.len()
        invariant
            l == lots_view(lots@),
            j <= lots@.len(),
            match_sale(l, sale, ty, qty as int).0 == lots_view(kept@) + match_sale(l.skip(j as int), sale, ty, rem as int).0,
            f0 + match_sale(l, sale, ty, qty as int).1 == fills_view(fills@) + match_sale(
                l.skip(j as int),
                sale,
                ty,
                rem as int,
            ).1,
            rem <= i64::MAX + j * 0x8000_0000_0000_0000,
        decreases lots@.len() - j,
    {
        let lot = lots[j];
        let ghost t = l.skip(j as int);
        let ghost kv = lots_view(kept@);
        let ghost fv = fills_view(fills@);
        assert(t[0] == lot_view(lot));
        assert(t.drop_first() =~= l.skip(j + 1));
        if rem <= 0 || lot.type_id != ty {
            kept.push(lot);
            assert(lots_view(kept@) =~= kv.push(lot_view(lot)));
            if rem > 0 {
                assert(kv + (seq![t[0]] + match_sale(t.drop_first(), sale, ty, rem as int).0) =~= kv.push(lot_view(lot)) + match_sale(t.drop_first(), sale, ty, rem as int).0);
            } else {
                assert(kv + t =~= kv.push(lot_view(lot)) + t.drop_first());
            }
        } else if rem < lot.units as i128 {
            let taken: i64 = rem as i64;
            let left = OpenLot { buy: lot.buy, type_id: ty, units: lot.units - taken };
            kept.push(left);
            fills.push(Fill { sale, buy: lot.buy, units: taken });
            assert(lots_view(kept@) =~= kv.push(lot_view(left)));
            assert(fills_view(fills@) =~= fv.push((sale, lot.buy, rem as int)));
            assert(kv + t.update(0, (lot.buy, ty, lot.units - rem)) =~= kv.push(lot_view(left)) + t.drop_first());
            assert(fv + seq![(sale, lot.buy, rem as int)] =~= fv.push((sale, lot.buy, rem as int)) + seq![]);
            rem = 0;
        } else {
            let ghost r = match_sale(t.drop_first(), sale, ty, rem - lot.units);
            fills.push(Fill { sale, buy: lot.buy, units: lot.units });
            assert(fills_view(fills@) =~= fv.push((sale, lot.buy, lot.units as int)));
            assert(fv + (seq![(sale, lot.buy, lot.units as int)] + r.1) =~= fv.push((sale, lot.buy, lot.units as int)) + r.1);
            rem = rem - lot.units as i128;
        }
        j += 1;
    }
    assert(l.skip(j as int) =~= seq![]);
    assert(lots_view(kept@) + seq![] =~= lots_view(kept@));
    assert(fills_view(fills@) + seq![] =~= fills_view(fills@));
    kept
}

/// Total units of the lots.
pub open spec fn lot_units(lots: Seq<(usize, i64, int)>) -> int
    decreases lots.len(),
{
    if lots.len() == 0 {
        0
    } else {
        lots[0].2 + lot_units(lots.drop_first())
    }
}

/// Total units of the fills.
pub open spec fn fill_units(fs: Seq<(usize, usize, int)>) -> int
    decreases fs.len(),
{
    if fs.len() == 0 {
        0
    } else {
        fs[0].2 + fill_units(fs.drop_first())
    }
}

/// Total units bought by the trades `order` lists.
pub open spec fn bought_units(ts: Seq<TradeEntry>, order: Seq<usize>) -> int
    decreases order.len(),
{
    if order.len() == 0 {
        0
    } else {
        bought_units(ts, order.drop_last()) + if ts[order.last() as int].is_buy {
            ts[order.last() as int].quantity as int
        } else {
            0
        }
    }
}

proof fn lemma_lot_units_push(lots: Seq<(usize, i64, int)>, x: (usize, i64, int))
    ensures
        lot_units(lots.push(x)) == lot_units(lots) + x.2,
    decreases lots.len(),
{
    assert(lots.push(x)[0] == if lots.len() > 0 {
        lots[0]
    } else {
        x
    });
    if lots.len() > 0 {
        assert(lots.push(x).drop_first() =~= lots.drop_first().push(x));
        lemma_lot_units_push(lots.drop_first(), x);
    } else {
        assert(lots.push(x).drop_first() =~= lots);
    }
}

proof fn lemma_fill_units_concat(a: Seq<(usize, usize, int)>, b: Seq<(usize, usize, int)>)
    ensures
        fill_units(a + b) == fill_units(a) + fill_units(b),
    decreases a.len(),
{
    if a.len() > 0 {
        assert((a + b).drop_first() =~= a.drop_first() + b);
        assert((a + b)[0] == a[0]);
        lemma_fill_units_concat(a.drop_first(), b);
    } else {
        assert(a + b =~= b);
    }
}

proof fn lemma_match_sale_conserves(lots: Seq<(usize, i64, int)>, sale: usize, ty: i64, remaining: int)
    ensures
        lot_units(match_sale(lots, sale, ty, remaining).0) + fill_units(match_sale(lots, sale, ty, remaining).1)
            == lot_units(lots),
    decreases lots.len(),
{
    if lots.len() == 0 || remaining <= 0 {
        assert(fill_units(seq![]) == 0);
    } else if lots[0].1 != ty {
        lemma_match_sale_conserves(lots.drop_first(), sale, ty, remaining);
        let r = match_sale(lots.drop_first(), sale, ty, remaining);
        assert((seq![lots[0]] + r.0).drop_first() =~= r.0);
        assert((seq![lots[0]] + r.0)[0] == lots[0]);
    } else if remaining < lots[0].2 {
        let u = lots.update(0, (lots[0].0, ty, lots[0].2 - remaining));
        assert(u.drop_first() =~= lots.drop_first());
        let f = seq![(sale, lots[0].0, remaining)];
        assert(f.drop_first() =~= seq![]);
        assert(f[0] == (sale, lots[0].0, remaining));
        assert(u[0] == (lots[0].0, ty, lots[0].2 - remaining));
        assert(fill_units(f.drop_first()) == 0);
        assert(fill_units(f) == remaining);
    } else {
        lemma_match_sale_conserves(lots.drop_first(), sale, ty, remaining - lots[0].2);
        let r = match_sale(lots.drop_first(), sale, ty, remaining - lots[0].2);
        let f = seq![(sale, lots[0].0, lots[0].2)] + r.1;
        assert(f.drop_first() =~= r.1);
        assert(f[0] == (sale, lots[0].0, lots[0].2));
    }
}

/// Matching moves units, it never makes or loses any: the units still
/// open plus the units matched equal the units bought.
pub proof fn lemma_fifo_conserves_units(ts: Seq<TradeEntry>, order: Seq<usize>)
    requires
        forall|k: int| 0 <= k < order.len() ==> order[k] < ts.len(),
    ensures
        lot_units(fifo_run(ts, order).0) + fill_units(fifo_run(ts, order).1) == bought_units(ts, order),
    decreases order.len(),
{
    if order.len() > 0 {
        let d = order.drop_last();
        lemma_fifo_conserves_units(ts, d);
        let prev = fifo_run(ts, d);
        let i = order.last();
        let t = ts[i as int];
        if t.is_buy {
            lemma_lot_units_push(prev.0, (i, t.type_id, t.quantity as int));
        } else {
            lemma_match_sale_conserves(prev.0, i, t.type_id, t.quantity as int);
            lemma_fill_units_concat(prev.1, match_sale(prev.0, i, t.type_id, t.quantity as int).1);
        }
    } else {
        assert(lot_units(seq![]) == 0 && fill_units(seq![]) == 0);
    }
}

/// `lots` holds a lot of buy `b` of item `ty`.
spec fn has_lot(lots: Seq<(usize, i64, int)>, b: usize, ty: i64) -> bool {
    exists|j: int| 0 <= j < lots.len() && lots[j].0 == b && lots[j].1 == ty
}

proof fn lemma_match_sale_origins(lots: Seq<(usize, i64, int)>, sale: usize, ty: i64, remaining: int)
    ensures
        forall|i: int|
            0 <= i < match_sale(lots, sale, ty, remaining).0.len() ==> has_lot(
                lots,
                (#[trigger] match_sale(lots, sale, ty, remaining).0[i]).0,
                match_sale(lots, sale, ty, remaining).0[i].1,
            ),
        forall|i: int|
            0 <= i < match_sale(lots, sale, ty, remaining).1.len() ==> (#[trigger] match_sale(
                lots,
                sale,
                ty,
                remaining,
            ).1[i]).0 == sale && has_lot(lots, match_sale(lots, sale, ty, remaining).1[i].1, ty),
    decreases lots.len(),
{
    let m = match_sale(lots, sale, ty, remaining);
    let d = lots.drop_first();
    if lots.len() == 0 || remaining <= 0 {
        assert forall|i: int| 0 <= i < m.0.len() implies has_lot(lots, (#[trigger] m.0[i]).0, m.0[i].1) by {
            assert(lots[i] == m.0[i]);
        }
    } else if lots[0].1 != ty {
        lemma_match_sale_origins(d, sale, ty, remaining);
        let r = match_sale(d, sale, ty, remaining);
        assert forall|i: int| 0 <= i < m.0.len() implies has_lot(lots, (#[trigger] m.0[i]).0, m.0[i].1) by {
            if i == 0 {
                assert(m.0[0] == lots[0]);
            } else {
                assert(m.0[i] == r.0[i - 1]);
                assert(has_lot(d, r.0[i - 1].0, r.0[i - 1].1));
                let j = choose|j: int| 0 <= j < d.len() && d[j].0 == r.0[i - 1].0 && d[j].1 == r.0[i - 1].1;
                assert(lots[j + 1] == d[j]);
            }
        }
        assert forall|i: int| 0 <= i < m.1.len() implies (#[trigger] m.1[i]).0 == sale && has_lot(lots, m.1[i].1, ty) by {
            assert(m.1[i] == r.1[i]);
            assert(has_lot(d, r.1[i].1, ty));
            let j = choose|j: int| 0 <= j < d.len() && d[j].0 == r.1[i].1 && d[j].1 == ty;
            assert(lots[j + 1] == d[j]);
        }
    } else if remaining < lots[0].2 {
        assert forall|i: int| 0 <= i < m.0.len() implies has_lot(lots, (#[trigger] m.0[i]).0, m.0[i].1) by {
            if i == 0 {
                assert(m.0[0].0 == lots[0].0 && m.0[0].1 == lots[0].1);
            } else {
                assert(m.0[i] == lots[i]);
            }
        }
        assert forall|i: int| 0 <= i < m.1.len() implies (#[trigger] m.1[i]).0 == sale && has_lot(lots, m.1[i].1, ty) by {
            assert(m.1[i] == (sale, lots[0].0, remaining));
        }
    } else {
        lemma_match_sale_origins(d, sale, ty, remaining - lots[0].2);
        let r = match_sale(d, sale, ty, remaining - lots[0].2);
        assert forall|i: int| 0 <= i < m.0.len() implies has_lot(lots, (#[trigger] m.0[i]).0, m.0[i].1) by {
            assert(m.0[i] == r.0[i]);
            assert(has_lot(d, r.0[i].0, r.0[i].1));
            let j = choose|j: int| 0 <= j < d.len() && d[j].0 == r.0[i].0 && d[j].1 == r.0[i].1;
            assert(lots[j + 1] == d[j]);
        }
        assert forall|i: int| 0 <= i < m.1.len() implies (#[trigger] m.1[i]).0 == sale && has_lot(lots, m.1[i].1, ty) by {
            if i == 0 {
                assert(m.1[0] == (sale, lots[0].0, lots[0].2));
            } else {
                assert(m.1[i] == r.1[i - 1]);
                assert(has_lot(d, r.1[i - 1].1, ty));
                let j = choose|j: int| 0 <= j < d.len() && d[j].0 == r.1[i - 1].1 && d[j].1 == ty;
                assert(lots[j + 1] == d[j]);
            }
        }
    }
}

/// Trade `b` stands before trade `s` in `order`.
spec fn precedes(order: Seq<usize>, b: usize, s: usize) -> bool {
    exists|a: int, c: int| 0 <= a < c < order.len() && order[a] == b && order[c] == s
}

proof fn lemma_fifo_origins(ts: Seq<TradeEntry>, order: Seq<usize>)
    requires
        forall|k: int| 0 <= k < order.len() ==> order[k] < ts.len(),
    ensures
        forall|i: int|
            0 <= i < fifo_run(ts, order).0.len() ==> {
                let l = #[trigger] fifo_run(ts, order).0[i];
                &&& ts[l.0 as int].is_buy
                &&& ts[l.0 as int].type_id == l.1
                &&& order.contains(l.0)
            },
        forall|i: int|
            0 <= i < fifo_run(ts, order).1.len() ==> {
                let f = #[trigger] fifo_run(ts, order).1[i];
                &&& !ts[f.0 as int].is_buy
                &&& ts[f.1 as int].is_buy
                &&& ts[f.1 as int].type_id == ts[f.0 as int].type_id
                &&& precedes(order, f.1, f.0)
            },
    decreases order.len(),
{
    if order.len() > 0 {
        let d = order.drop_last();
        lemma_fifo_origins(ts, d);
        let prev = fifo_run(ts, d);
        let run = fifo_run(ts, order);
        let n = order.len() - 1;
        let i = order.last();
        let t = ts[i as int];
        assert forall|x: usize| d.contains(x) implies order.contains(x) by {
            let a = choose|a: int| 0 <= a < d.len() && d[a] == x;
            assert(order[a] == x);
        }
        assert forall|b: usize, s: usize| precedes(d, b, s) implies precedes(order, b, s) by {
            let (a, c) = choose|a: int, c: int| 0 <= a < c < d.len() && d[a] == b && d[c] == s;
            assert(order[a] == b && order[c] == s);
        }
        if t.is_buy {
            assert forall|k: int| 0 <= k < run.0.len() implies {
                let l = #[trigger] run.0[k];
                &&& ts[l.0 as int].is_buy
                &&& ts[l.0 as int].type_id == l.1
                &&& order.contains(l.0)
            } by {
                if k < prev.0.len() {
                    assert(run.0[k] == prev.0[k]);
                } else {
                    assert(run.0[k] == (i, t.type_id, t.quantity as int));
                    assert(order[n] == i);
                }
            }
        } else {
            lemma_match_sale_origins(prev.0, i, t.type_id, t.quantity as int);
            let m = match_sale(prev.0, i, t.type_id, t.quantity as int);
            assert forall|k: int| 0 <= k < run.0.len() implies {
                let l = #[trigger] run.0[k];
                &&& ts[l.0 as int].is_buy
                &&& ts[l.0 as int].type_id == l.1
                &&& order.contains(l.0)
            } by {
                assert(has_lot(prev.0, m.0[k].0, m.0[k].1));
                let j = choose|j: int| 0 <= j < prev.0.len() && prev.0[j].0 == m.0[k].0 && prev.0[j].1 == m.0[k].1;
                assert(prev.0[j] == prev.0[j]);
            }
            assert forall|k: int| 0 <= k < run.1.len() implies {
                let f = #[trigger] run.1[k];
                &&& !ts[f.0 as int].is_buy
                &&& ts[f.1 as int].is_buy
                &&& ts[f.1 as int].type_id == ts[f.0 as int].type_id
                &&& precedes(order, f.1, f.0)
            } by {
                if k < prev.1.len() {
                    assert(run.1[k] == prev.1[k]);
                } else {
                    let q = k - prev.1.len();
                    assert(run.1[k] == m.1[q]);
                    assert(m.1[q].0 == i && has_lot(prev.0, m.1[q].1, t.type_id));
                    let j = choose|j: int| 0 <= j < prev.0.len() && prev.0[j].0 == m.1[q].1 && prev.0[j].1 == t.type_id;
                    assert(prev.0[j] == prev.0[j]);
                    let b = m.1[q].1;
                    assert(d.contains(b));
                    let a = choose|a: int| 0 <= a < d.len() && d[a] == b;
                    assert(order[a] == b && order[n] == i);
                }
            }
        }
    }
}

/// A sale is only ever matched against a buy of the same item that comes
/// before it in processing order.
pub proof fn lemma_fills_match_earlier_buys(ts: Seq<TradeEntry>, order: Seq<usize>)
    requires
        is_processing_order(ts, order),
    ensures
        forall|i: int|
            0 <= i < fifo_run(ts, order).1.len() ==> {
                let f = #[trigger] fifo_run(ts, order).1[i];
                &&& !ts[f.0 as int].is_buy
                &&& ts[f.1 as int].is_buy
                &&& ts[f.1 as int].type_id == ts[f.0 as int].type_id
                &&& trade_before(ts, f.1 as int, f.0 as int)
            },
{
    lemma_fifo_origins(ts, order);
    assert forall|i: int| 0 <= i < fifo_run(ts, order).1.len() implies trade_before(
        ts,
        (#[trigger] fifo_run(ts, order).1[i]).1 as int,
        fifo_run(ts, order).1[i].0 as int,
    ) by {
        let f = fifo_run(ts, order).1[i];
        let (a, c) = choose|a: int, c: int| 0 <= a < c < order.len() && order[a] == f.1 && order[c] == f.0;
        assert(trade_before(ts, order[a] as int, order[c] as int));
    }
}

/// Matches a trade log first in, first out. The log is processed oldest
/// first (by date, ties in log order); a buy opens a lot, and a sale takes
/// units from the oldest open lots of the same item, as many as it sold or
/// as the lots hold. Units sold beyond the known buys are left unmatched.
pub fn fifo_match(trades: &[TradeEntry]) -> (r: FifoLedger)
    ensures
        is_processing_order(trades@, r.order@),
        (lots_view(r.open@), fills_view(r.fills@)) == fifo_run(trades@, r.order@),
{
    let ghost ts = trades@;
    let order = processing_order(trades);
    let mut lots: Vec<OpenLot> = Vec::new();
    let mut fills: Vec<Fill> = Vec::new();
    let mut k: usize = 0;
    let n = trades.len();
    proof {
        assert(order@.take(0) =~= seq![]);
        assert(lots_view(lots@) =~= seq![]);
        assert(fills_view(fills@) =~= seq![]);
    }
    while k < n
        invariant
            ts == trades@,
            n == ts.len(),
            is_processing_order(ts, order@),
            k <= n,
            (lots_view(lots@), fills_view(fills@)) == fifo_run(ts, order@.take(k as int)),
        decreases n - k,
    {
        let i = order[k];
        let t = &trades[i];
        proof {
            assert(order@.take(k + 1).drop_last() =~= order@.take(k as int));
            assert(order@.take(k + 1).last() == i);
        }
        if t.is_buy {
            let ghost lv = lots_view(lots@);
            let lot = OpenLot { buy: i, type_id: t.type_id, units: t.quantity };
            lots.push(lot);
            assert(lots_view(lots@) =~= lv.push(lot_view(lot)));
        } else {
            lots = match_sale_exec(&lots, i, t.type_id, t.quantity, &mut fills);
        }
        k += 1;
    }
    assert(order@.take(n as int) =~= order@);
    FifoLedger { order, fills, open: lots }
}

} // verus!
