//! Corp loyalty points: a ledger of awards (positive entries) and
//! redemptions (negative entries), rolled up into a per-member board.

use vstd::prelude::*;
use crate::text::{
    trim, trim_bounds, lowercase, str_to_lowercase, seq_lt, lemma_seq_lt_order, str_lt, chars_of,
    slice_chars, range_eq, string_from_chars, is_ascii_text, ascii_lower_seq,
};

verus! {

/// One ledger entry: earned when `points > 0`, redeemed when `< 0`.
#[derive(Debug, Clone, PartialEq)]
pub struct LoyaltyEntry {
    pub id: i64,
    pub member: String,
    pub points: i64,
    /// A free-text reason ("CTA fleet", "redeemed: Vexor").
    pub reason: String,
    /// A category for filtering ("pvp", "donation", "redeem", ...).
    pub category: String,
    pub created_at: i64,
}

/// A member's rolled-up standing.
#[derive(Debug, Clone, PartialEq)]
pub struct MemberBalance {
    pub member: String,
    pub balance: i64,
    pub earned: i64,
    pub redeemed: i64,
    pub entry_count: usize,
}

/// The key a member name is matched by: trimmed and lowercased.
pub open spec fn key_of(member: Seq<char>) -> Seq<char> {
    lowercase(trim(member))
}

/// On an ASCII name, the key is the ASCII lowercase of the trimmed name.
pub open spec fn ascii_key(member: Seq<char>) -> bool {
    is_ascii_text(trim(member)) ==> key_of(member) == ascii_lower_seq(trim(member))
}

/// Points earned by the member with key `k`.
pub open spec fn earned_by(es: Seq<LoyaltyEntry>, k: Seq<char>) -> int
    decreases es.len(),
{
    if es.len() == 0 {
        0
    } else {
        earned_by(es.drop_last(), k) + if key_of(es.last().member@) == k && es.last().points >= 0 {
            es.last().points as int
        } else {
            0
        }
    }
}

/// Points redeemed by the member with key `k` (as a positive number).
pub open spec fn redeemed_by(es: Seq<LoyaltyEntry>, k: Seq<char>) -> int
    decreases es.len(),
{
    if es.len() == 0 {
        0
    } else {
        redeemed_by(es.drop_last(), k) + if key_of(es.last().member@) == k && es.last().points < 0 {
            -es.last().points
        } else {
            0
        }
    }
}

/// Number of entries of the member with key `k`.
pub open spec fn entries_by(es: Seq<LoyaltyEntry>, k: Seq<char>) -> nat
    decreases es.len(),
{
    if es.len() == 0 {
        0
    } else {
        entries_by(es.drop_last(), k) + if key_of(es.last().member@) == k {
            1nat
        } else {
            0nat
        }
    }
}

/// The name the member with key `k` is reported under: the trimmed name of
/// their first entry.
pub open spec fn first_display(es: Seq<LoyaltyEntry>, k: Seq<char>) -> Seq<char>
    decreases es.len(),
{
    if es.len() == 0 {
        seq![]
    } else if entries_by(es.drop_last(), k) > 0 {
        first_display(es.drop_last(), k)
    } else if key_of(es.last().member@) == k {
        trim(es.last().member@)
    } else {
        seq![]
    }
}

/// `k` is the key of a member on the board: not blank, with some entry.
pub open spec fn is_member(es: Seq<LoyaltyEntry>, k: Seq<char>) -> bool {
    k.len() > 0 && entries_by(es, k) > 0
}

/// `b` is the standing of the member with key `k`.
pub open spec fn standing_of(es: Seq<LoyaltyEntry>, k: Seq<char>, b: MemberBalance) -> bool {
    &&& b.member@ == first_display(es, k)
    &&& b.earned == earned_by(es, k)
    &&& b.redeemed == redeemed_by(es, k)
    &&& b.balance == b.earned - b.redeemed
    &&& b.entry_count == entries_by(es, k)
}

/// `a` ranks above `b`: a higher balance, or the same and a name that sorts
/// first.
pub open spec fn ranks_before(a: MemberBalance, b: MemberBalance) -> bool {
    a.balance > b.balance || (a.balance == b.balance && seq_lt(a.member@, b.member@))
}

/// The board lists the member with key `k`.
pub open spec fn lists_member(board: Seq<MemberBalance>, k: Seq<char>) -> bool {
    exists|i: int| 0 <= i < board.len() && lowercase((#[trigger] board[i]).member@) == k
}

/// The ledger can be rolled up without overflow: no member's earned or
/// redeemed total exceeds `i64::MAX`, and no member entry is `i64::MIN`
/// points.
pub open spec fn ledger_fits(es: Seq<LoyaltyEntry>) -> bool {
    &&& forall|k: Seq<char>| k.len() > 0 ==> #[trigger] earned_by(es, k) <= i64::MAX
    &&& forall|k: Seq<char>| k.len() > 0 ==> #[trigger] redeemed_by(es, k) <= i64::MAX
    &&& forall|i: int| 0 <= i < es.len() && key_of((#[trigger] es[i]).member@).len() > 0 ==> es[i].points > i64::MIN
}

/// Entry `k` can be folded in without overflow: it has a blank name, or its
/// member's totals up to and including it fit `i64` and it is not
/// `i64::MIN` points.
pub open spec fn entry_fits(es: Seq<LoyaltyEntry>, k: int) -> bool {
    let kk = key_of(es[k].member@);
    kk.len() == 0 || (es[k].points > i64::MIN && earned_by(es.take(k + 1), kk) <= i64::MAX && redeemed_by(
        es.take(k + 1),
        kk,
    ) <= i64::MAX)
}

/// The ledger fits exactly when every entry can be folded in, in turn.
proof fn lemma_fits_by_entries(es: Seq<LoyaltyEntry>)
    ensures
        ledger_fits(es) <==> forall|k: int| 0 <= k < es.len() ==> #[trigger] entry_fits(es, k),
    decreases es.len(),
{
    if ledger_fits(es) {
        assert forall|k: int| 0 <= k < es.len() implies #[trigger] entry_fits(es, k) by {
            lemma_totals_grow(es, k + 1, key_of(es[k].member@));
        }
    }
    if es.len() > 0 && forall|k: int| 0 <= k < es.len() ==> #[trigger] entry_fits(es, k) {
        let d = es.drop_last();
        let n = es.len() - 1;
        assert forall|k: int| 0 <= k < d.len() implies #[trigger] entry_fits(d, k) by {
            assert(entry_fits(es, k));
            assert(d.take(k + 1) =~= es.take(k + 1));
        }
        lemma_fits_by_entries(d);
        assert(entry_fits(es, n));
        assert(es.take(n + 1) =~= es);
        assert forall|k: Seq<char>| k.len() > 0 implies #[trigger] earned_by(es, k) <= i64::MAX by {
            assert(earned_by(d, k) <= i64::MAX);
        }
        assert forall|k: Seq<char>| k.len() > 0 implies #[trigger] redeemed_by(es, k) <= i64::MAX by {
            assert(redeemed_by(d, k) <= i64::MAX);
        }
        assert forall|i: int| 0 <= i < es.len() && key_of((#[trigger] es[i]).member@).len() > 0 implies es[i].points
            > i64::MIN by {
            assert(entry_fits(es, i));
        }
    }
}

proof fn lemma_totals_grow(es: Seq<LoyaltyEntry>, j: int, k: Seq<char>)
    requires
        0 <= j <= es.len(),
    ensures
        0 <= earned_by(es.take(j), k) <= earned_by(es, k),
        0 <= redeemed_by(es.take(j), k) <= redeemed_by(es, k),
    decreases es.len() - j,
{
    if j < es.len() {
        lemma_totals_grow(es.drop_last(), j, k);
        assert(es.drop_last().take(j) =~= es.take(j));
    } else {
        assert(es.take(j) =~= es);
        lemma_totals_nonneg(es, k);
    }
}

proof fn lemma_totals_nonneg(es: Seq<LoyaltyEntry>, k: Seq<char>)
    ensures
        earned_by(es, k) >= 0,
        redeemed_by(es, k) >= 0,
    decreases es.len(),
{
    if es.len() > 0 {
        lemma_totals_nonneg(es.drop_last(), k);
    }
}

/// Rows of the board being built: keys, display names and
/// `(earned, redeemed, entries)`, one per member, first-seen order.
struct Board {
    keys: Vec<Vec<char>>,
    names: Vec<Vec<char>>,
    stats: Vec<(i64, i64, usize)>,
}

impl Board {
    /// The rows hold exactly the members of `pre`, each once, with their
    /// totals.
    spec fn holds(&self, pre: Seq<LoyaltyEntry>) -> bool {
        &&& self.keys@.len() == self.names@.len()
        &&& self.keys@.len() == self.stats@.len()
        &&& forall|i: int, j: int| 0 <= i < j < self.keys@.len() ==> (#[trigger] self.keys@[i])@ != (#[trigger] self.keys@[j])@
        &&& forall|i: int| 0 <= i < self.keys@.len() ==> is_member(pre, (#[trigger] self.keys@[i])@)
        &&& forall|i: int| 0 <= i < self.keys@.len() ==> (#[trigger] self.keys@[i])@ == lowercase(self.names@[i]@)
        &&& forall|i: int| 0 <= i < self.keys@.len() ==> (#[trigger] self.names@[i])@ == first_display(pre, self.keys@[i]@)
        &&& forall|i: int| 0 <= i < self.keys@.len() ==> (#[trigger] self.stats@[i]).0 == earned_by(pre, self.keys@[i]@)
            && self.stats@[i].1 == redeemed_by(pre, self.keys@[i]@)
            && self.stats@[i].2 == entries_by(pre, self.keys@[i]@)
        &&& forall|k: Seq<char>| is_member(pre, k) ==> exists|i: int| 0 <= i < self.keys@.len() && (#[trigger] self.keys@[i])@ == k
    }
}

/// Folds the entry `e` (the one after `pre` in `es`) into the board.
/// Whether it fits `i64` (see [`entry_fits`]); the board is updated only
/// when it does.
fn add_entry(board: &mut Board, e: &LoyaltyEntry, Ghost(es): Ghost<Seq<LoyaltyEntry>>, Ghost(k): Ghost<int>) -> (ok:
    bool)
    requires
        0 <= k < es.len(),
        es.len() <= usize::MAX,
        es[k] == *e,
        old(board).holds(es.take(k)),
    ensures
        ok == entry_fits(es, k),
        ok ==> final(board).holds(es.take(k + 1)),
        ascii_key(es[k].member@),
{
    let ghost pre = es.take(k);
    let ghost post = es.take(k + 1);
    assert(post.drop_last() =~= pre);
    assert(post.last() == *e);
    let m = chars_of(e.member.as_str());
    let (ta, tb) = trim_bounds(&m, 0, m.len());
    assert(m@.subrange(0, m@.len() as int) =~= m@);
    let disp = slice_chars(&m, ta, tb);
    let disp_s = string_from_chars(&disp);
    let low = str_to_lowercase(disp_s.as_str());
    let key = chars_of(low.as_str());
    let ghost kk = key@;
    assert(kk == key_of(e.member@));
    if key.len() == 0 {
        proof {
            assert forall|k2: Seq<char>| #[trigger] is_member(post, k2) == is_member(pre, k2) by {}
            assert forall|i: int| 0 <= i < board.keys@.len() implies (#[trigger] board.names@[i])@ == first_display(post, board.keys@[i]@) by {}
        }
        return true;
    }
    if e.points == i64::MIN {
        return false;
    }
    proof {
        assert(es.take(k + 1) == post);
    }
    let mut j: usize = 0;
    loop
        invariant
            j <= board.keys@.len(),
            forall|i: int| 0 <= i < j ==> (#[trigger] board.keys@[i])@ != kk,
            key@ == kk,
        ensures
            j <= board.keys@.len(),
            forall|i: int| 0 <= i < j ==> (#[trigger] board.keys@[i])@ != kk,
            j < board.keys@.len() ==> board.keys@[j as int]@ == kk,
        decreases board.keys@.len() - j,
    {
        if j == board.keys.len() {
            break;
        }
        let len = board.keys[j].len();
        let same = range_eq(&board.keys[j], 0, len, &key, 0, key.len());
        assert(board.keys@[j as int]@.subrange(0, len as int) =~= board.keys@[j as int]@);
        assert(key@.subrange(0, key@.len() as int) =~= key@);
        if same {
            break;
        }
        j += 1;
    }
    let p = e.points;
    assert(key_of(es[k].member@).len() > 0);
    let ghost old_keys = board.keys@;
    if j < board.keys.len() {
        let (ea, rd, n) = board.stats[j];
        proof {
            assert(board.keys@[j as int]@ == kk);
            assert(ea == earned_by(pre, kk));
            assert(rd == redeemed_by(pre, kk));
            assert(n == entries_by(pre, kk));
            assert(n <= pre.len()) by {
                lemma_entries_bounded(pre, kk);
            }
            assert(pre.len() == k);
        }
        let ns = if p >= 0 {
            if ea > i64::MAX - p {
                return false;
            }
            (ea + p, rd, n + 1)
        } else {
            if rd > i64::MAX + p {
                return false;
            }
            (ea, rd - p, n + 1)
        };
        board.stats.set(j, ns);
    } else {
        proof {
            assert(!is_member(pre, kk)) by {
                if is_member(pre, kk) {
                    let i = choose|i: int| 0 <= i < board.keys@.len() && (#[trigger] board.keys@[i])@ == kk;
                    assert(false);
                }
            }
            assert(entries_by(pre, kk) == 0);
            lemma_absent_totals(pre, kk);
        }
        let ns = if p >= 0 {
            (p, 0i64, 1usize)
        } else {
            (0i64, 0 - p, 1usize)
        };
        board.keys.push(key);
        board.names.push(disp);
        board.stats.push(ns);
    }
    proof {
        let b = *board;
        assert forall|i: int| 0 <= i < b.keys@.len() implies is_member(post, (#[trigger] b.keys@[i])@) by {
            if i < old_keys.len() {
                assert(b.keys@[i] == old_keys[i]);
            }
        }
        assert forall|i: int| 0 <= i < b.keys@.len() implies (#[trigger] b.names@[i])@ == first_display(post, b.keys@[i]@) by {
            if i < old_keys.len() {
                assert(b.keys@[i] == old_keys[i]);
            }
        }
        assert forall|i: int| 0 <= i < b.keys@.len() implies (#[trigger] b.stats@[i]).0 == earned_by(post, b.keys@[i]@)
            && b.stats@[i].1 == redeemed_by(post, b.keys@[i]@)
            && b.stats@[i].2 == entries_by(post, b.keys@[i]@) by {
            if i < old_keys.len() {
                assert(b.keys@[i] == old_keys[i]);
            }
        }
        assert forall|i: int| 0 <= i < b.keys@.len() implies (#[trigger] b.keys@[i])@ == lowercase(b.names@[i]@) by {
            if i < old_keys.len() {
                assert(b.keys@[i] == old_keys[i]);
            }
        }
        assert forall|i: int, i2: int| 0 <= i < i2 < b.keys@.len() implies (#[trigger] b.keys@[i])@ != (#[trigger] b.keys@[i2])@ by {
            if i2 < old_keys.len() {
                assert(b.keys@[i] == old_keys[i]);
                assert(b.keys@[i2] == old_keys[i2]);
            } else {
                assert(b.keys@[i] == old_keys[i]);
            }
        }
        assert forall|k2: Seq<char>| is_member(post, k2) implies exists|i: int| 0 <= i < b.keys@.len() && (#[trigger] b.keys@[i])@ == k2 by {
            if k2 == kk {
                assert(b.keys@[j as int]@ == kk);
            } else {
                assert(is_member(pre, k2));
                let i = choose|i: int| 0 <= i < old_keys.len() && (#[trigger] old_keys[i])@ == k2;
                assert(b.keys@[i] == old_keys[i]);
            }
        }
    }
    true
}

proof fn lemma_entries_bounded(es: Seq<LoyaltyEntry>, k: Seq<char>)
    ensures
        entries_by(es, k) <= es.len(),
    decreases es.len(),
{
    if es.len() > 0 {
        lemma_entries_bounded(es.drop_last(), k);
    }
}

proof fn lemma_absent_totals(es: Seq<LoyaltyEntry>, k: Seq<char>)
    requires
        entries_by(es, k) == 0,
    ensures
        earned_by(es, k) == 0,
        redeemed_by(es, k) == 0,
    decreases es.len(),
{
    if es.len() > 0 {
        lemma_absent_totals(es.drop_last(), k);
    }
}

/// Sorts board rows with distinct names into rank order.
fn sort_board(v: Vec<MemberBalance>) -> (r: Vec<MemberBalance>)
    requires
        forall|i: int, j: int| 0 <= i < j < v@.len() ==> (#[trigger] v@[i]).member@ != (#[trigger] v@[j]).member@,
    ensures
        r@.to_set() == v@.to_set(),
        forall|i: int, j: int| 0 <= i < j < r@.len() ==> ranks_before(#[trigger] r@[i], #[trigger] r@[j]),
{
    let ghost orig = v@;
    let mut v = v;
    let mut out: Vec<MemberBalance> = Vec::new();
    while v.len() > 0
        invariant
            v@ == orig.take(v@.len() as int),
            v@.len() <= orig.len(),
            forall|i: int, j: int| 0 <= i < j < orig.len() ==> (#[trigger] orig[i]).member@ != (#[trigger] orig[j]).member@,
            out@.to_set() == orig.skip(v@.len() as int).to_set(),
            forall|i: int| 0 <= i < out@.len() ==> orig.skip(v@.len() as int).contains(#[trigger] out@[i]),
            forall|i: int, j: int| 0 <= i < j < out@.len() ==> ranks_before(#[trigger] out@[i], #[trigger] out@[j]),
        decreases v@.len(),
    {
        let ghost n0 = v@.len() as int;
        let x = v.pop().unwrap();
        proof {
            assert(x == orig[n0 - 1]);
            assert(orig.skip(n0 - 1) =~= seq![x] + orig.skip(n0));
        }
        let mut p: usize = 0;
        while p < out.len() && before_exec(&out[p], &x)
            invariant
                p <= out@.len(),
                forall|i: int| 0 <= i < p ==> ranks_before(#[trigger] out@[i], x),
            decreases out@.len() - p,
        {
            p += 1;
        }
        proof {
            let s0 = orig.skip(n0);
            assert forall|i: int| p <= i < out@.len() implies ranks_before(x, #[trigger] out@[i]) by {
                // out[i] comes from orig at an index >= n0, x is orig[n0 - 1]: their names differ.
                assert(s0.contains(out@[i]));
                let m = choose|m: int| 0 <= m < s0.len() && #[trigger] s0[m] == out@[i];
                assert(orig[n0 + m] == out@[i]);
                assert(orig[n0 - 1].member@ != orig[n0 + m].member@);
                lemma_seq_lt_order(x.member@, out@[i].member@, out@[i].member@);
                lemma_seq_lt_order(x.member@, out@[p as int].member@, out@[i].member@);
                lemma_seq_lt_order(out@[p as int].member@, x.member@, out@[i].member@);
                if i > p {
                    assert(ranks_before(out@[p as int], out@[i]));
                    assert(s0.contains(out@[p as int]));
                    let m2 = choose|m2: int| 0 <= m2 < s0.len() && #[trigger] s0[m2] == out@[p as int];
                    assert(orig[n0 + m2] == out@[p as int]);
                }
            }
        }
        let ghost before = out@;
        out.insert(p, x);
        proof {
            assert(out@ =~= before.take(p as int).push(x) + before.skip(p as int));
            lemma_insert_to_set(before, p as int, x);
            let s1 = orig.skip(n0 - 1);
            let s0 = orig.skip(n0);
            assert(s1 =~= seq![x] + s0);
            assert(s1.to_set() =~= s0.to_set().insert(x)) by {
                assert forall|y: MemberBalance| s1.to_set().contains(y) <==> s0.to_set().insert(x).contains(y) by {
                    if s1.contains(y) {
                        let i = choose|i: int| 0 <= i < s1.len() && #[trigger] s1[i] == y;
                        if i > 0 {
                            assert(s0[i - 1] == y);
                        }
                    }
                    if s0.contains(y) {
                        let i = choose|i: int| 0 <= i < s0.len() && #[trigger] s0[i] == y;
                        assert(s1[i + 1] == y);
                    }
                    if y == x {
                        assert(s1[0] == y);
                    }
                }
            }
            assert forall|i: int| 0 <= i < out@.len() implies s1.contains(#[trigger] out@[i]) by {
                if i == p {
                    assert(s1[0] == x);
                } else {
                    let y = out@[i];
                    if i < p {
                        assert(before[i] == y);
                    } else {
                        assert(before[i - 1] == y);
                    }
                    assert(s0.contains(y));
                    let m = choose|m: int| 0 <= m < s0.len() && #[trigger] s0[m] == y;
                    assert(s1[m + 1] == y);
                }
            }
            assert forall|i: int, j: int| 0 <= i < j < out@.len() implies ranks_before(#[trigger] out@[i], #[trigger] out@[j]) by {
                if j < p {
                    assert(out@[i] == before[i] && out@[j] == before[j]);
                } else if j == p {
                    assert(out@[i] == before[i]);
                } else if i < p {
                    assert(out@[i] == before[i] && out@[j] == before[j - 1]);
                    lemma_seq_lt_order(before[i].member@, x.member@, before[j - 1].member@);
                } else if i == p {
                    assert(out@[j] == before[j - 1]);
                } else {
                    assert(out@[i] == before[i - 1] && out@[j] == before[j - 1]);
                }
            }
        }
    }
    assert(orig.skip(0) =~= orig);
    out
}

proof fn lemma_insert_to_set(s: Seq<MemberBalance>, p: int, x: MemberBalance)
    requires
        0 <= p <= s.len(),
    ensures
        (s.take(p).push(x) + s.skip(p)).to_set() == s.to_set().insert(x),
{
    let t = s.take(p).push(x) + s.skip(p);
    assert forall|y: MemberBalance| t.to_set().contains(y) implies s.to_set().insert(x).contains(y) by {
        let i = choose|i: int| 0 <= i < t.len() && t[i] == y;
        if i < p {
            assert(s[i] == y);
        } else if i > p {
            assert(s[i - 1] == y);
        }
    }
    assert forall|y: MemberBalance| s.to_set().insert(x).contains(y) implies t.to_set().contains(y) by {
        if y == x {
            assert(t[p] == x);
        } else {
            let i = choose|i: int| 0 <= i < s.len() && s[i] == y;
            if i < p {
                assert(t[i] == y);
            } else {
                assert(t[i + 1] == y);
            }
        }
    }
    assert(t.to_set() =~= s.to_set().insert(x));
}

fn before_exec(a: &MemberBalance, b: &MemberBalance) -> (r: bool)
    ensures
        r == ranks_before(*a, *b),
{
    a.balance > b.balance || (a.balance == b.balance && str_lt(a.member.as_str(), b.member.as_str()))
}

/// Rolls a ledger up into per-member standings, highest balance first (ties
/// by name). Names match after trimming and lowercasing and are reported as
/// first seen (trimmed); entries with a blank name are ignored.
pub fn summarize(entries: &[LoyaltyEntry]) -> (r: Vec<MemberBalance>)
    requires
        ledger_fits(entries@),
    ensures
        forall|i: int| 0 <= i < entries@.len() ==> ascii_key((#[trigger] entries@[i]).member@),
        forall|i: int| 0 <= i < r@.len() ==> is_member(entries@, lowercase((#[trigger] r@[i]).member@))
            && standing_of(entries@, lowercase(r@[i].member@), r@[i]),
        forall|k: Seq<char>| is_member(entries@, k) ==> #[trigger] lists_member(r@, k),
        forall|i: int, j: int| 0 <= i < j < r@.len() ==> ranks_before(#[trigger] r@[i], #[trigger] r@[j]),
{
    let ghost es = entries@;
    let mut board = Board { keys: Vec::new(), names: Vec::new(), stats: Vec::new() };
    let mut k: usize = 0;
    assert(es.take(0) =~= seq![]);
    while k < entries.len()
        invariant
            es == entries@,
            ledger_fits(es),
            k <= es.len(),
            board.holds(es.take(k as int)),
            forall|i: int| 0 <= i < k ==> ascii_key((#[trigger] es[i]).member@),
        decreases es.len() - k,
    {
        proof {
            lemma_fits_by_entries(es);
        }
        let ok = add_entry(&mut board, &entries[k], Ghost(es), Ghost(k as int));
        assert(ok);
        k += 1;
    }
    assert(es.take(es.len() as int) =~= es);
    let n = board.keys.len();
    let mut rows: Vec<MemberBalance> = Vec::new();
    let mut i: usize = 0;
    while i < n
        invariant
            n == board.keys@.len(),
            board.holds(es),
            ledger_fits(es),
            i <= n,
            rows@.len() == i,
            forall|m: int| 0 <= m < i ==> standing_of(es, board.keys@[m]@, #[trigger] rows@[m])
                && lowercase(rows@[m].member@) == board.keys@[m]@,
        decreases n - i,
    {
        let (ea, rd, cnt) = board.stats[i];
        proof {
            lemma_totals_nonneg(es, board.keys@[i as int]@);
            assert(is_member(es, board.keys@[i as int]@));
            assert(earned_by(es, board.keys@[i as int]@) <= i64::MAX);
            assert(redeemed_by(es, board.keys@[i as int]@) <= i64::MAX);
        }
        rows.push(MemberBalance {
            member: string_from_chars(board.names[i].as_slice()),
            balance: ea - rd,
            earned: ea,
            redeemed: rd,
            entry_count: cnt,
        });
        i += 1;
    }
    proof {
        assert forall|a: int, b: int| 0 <= a < b < rows@.len() implies (#[trigger] rows@[a]).member@ != (#[trigger] rows@[b]).member@ by {
            assert(board.keys@[a]@ != board.keys@[b]@);
        }
    }
    let ghost unsorted = rows@;
    let r = sort_board(rows);
    proof {
        assert forall|i: int| 0 <= i < r@.len() implies is_member(es, lowercase((#[trigger] r@[i]).member@))
            && standing_of(es, lowercase(r@[i].member@), r@[i]) by {
            assert(r@.to_set().contains(r@[i]));
            let q = choose|q: int| 0 <= q < unsorted.len() && unsorted[q] == r@[i];
            assert(lowercase(unsorted[q].member@) == board.keys@[q]@);
        }
        assert forall|k2: Seq<char>| is_member(es, k2) implies #[trigger] lists_member(r@, k2) by {
            let q = choose|q: int| 0 <= q < board.keys@.len() && (#[trigger] board.keys@[q])@ == k2;
            assert(unsorted.to_set().contains(unsorted[q]));
            let m = choose|m: int| 0 <= m < r@.len() && r@[m] == unsorted[q];
            assert(lowercase(r@[m].member@) == k2);
        }
    }
    r
}

/// [`summarize`] where the ledger fits `i64` (see [`ledger_fits`]); `None`
/// where some member's running total would overflow.
pub fn try_summarize(entries: &[LoyaltyEntry]) -> (r: Option<Vec<MemberBalance>>)
    ensures
        r is None <==> !ledger_fits(entries@),
        r matches Some(b) ==> {
            &&& forall|i: int| 0 <= i < entries@.len() ==> ascii_key((#[trigger] entries@[i]).member@)
            &&& forall|i: int| 0 <= i < b@.len() ==> is_member(entries@, lowercase((#[trigger] b@[i]).member@))
                && standing_of(entries@, lowercase(b@[i].member@), b@[i])
            &&& forall|k: Seq<char>| is_member(entries@, k) ==> #[trigger] lists_member(b@, k)
            &&& forall|i: int, j: int| 0 <= i < j < b@.len() ==> ranks_before(#[trigger] b@[i], #[trigger] b@[j])
        },
{
    let ghost es = entries@;
    let mut board = Board { keys: Vec::new(), names: Vec::new(), stats: Vec::new() };
    let mut k: usize = 0;
    assert(es.take(0) =~= seq![]);
    while k < entries.len()
        invariant
            es == entries@,
            k <= es.len(),
            board.holds(es.take(k as int)),
            forall|m: int| 0 <= m < k ==> #[trigger] entry_fits(es, m),
        decreases es.len() - k,
    {
        let ok = add_entry(&mut board, &entries[k], Ghost(es), Ghost(k as int));
        if !ok {
            proof {
                lemma_fits_by_entries(es);
            }
            return None;
        }
        k += 1;
    }
    proof {
        lemma_fits_by_entries(es);
    }
    Some(summarize(entries))
}

} // verus!
