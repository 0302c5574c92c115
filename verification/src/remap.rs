//! Neural remap search.
//!
//! Every attribute has a base of 17 and 14 points are distributed on top,
//! each attribute capped at 27. The search lists every such allocation and
//! keeps the one whose plan training time is smallest (the first of equally
//! fast ones).

use vstd::prelude::*;

verus! {

/// A character training attribute.
#[derive(Debug, Clone, Copy, PartialEq, Eq)]
pub enum Attr {
    Intelligence,
    Memory,
    Perception,
    Willpower,
    Charisma,
}

/// Position of an attribute in an allocation `[int, mem, per, wil, cha]`.
pub open spec fn attr_index(a: Attr) -> int {
    match a {
        Attr::Intelligence => 0,
        Attr::Memory => 1,
        Attr::Perception => 2,
        Attr::Willpower => 3,
        Attr::Charisma => 4,
    }
}

/// The attribute an SDE character-attribute dogma id names.
pub open spec fn attr_of_id(id: i64) -> Option<Attr> {
    if id == 165 {
        Some(Attr::Intelligence)
    } else if id == 166 {
        Some(Attr::Memory)
    } else if id == 167 {
        Some(Attr::Perception)
    } else if id == 168 {
        Some(Attr::Willpower)
    } else if id == 164 {
        Some(Attr::Charisma)
    } else {
        None
    }
}

impl Attr {
    /// Position of the attribute in an allocation `[int, mem, per, wil, cha]`.
    pub fn index(self) -> (r: usize)
        ensures
            r == attr_index(self),
    {
        match self {
            Attr::Intelligence => 0,
            Attr::Memory => 1,
            Attr::Perception => 2,
            Attr::Willpower => 3,
            Attr::Charisma => 4,
        }
    }

    /// Maps an SDE character-attribute dogma id to an attribute.
    pub fn from_attribute_id(id: i64) -> (r: Option<Attr>)
        ensures
            r == attr_of_id(id),
    {
        match id {
            165 => Some(Attr::Intelligence),
            166 => Some(Attr::Memory),
            167 => Some(Attr::Perception),
            168 => Some(Attr::Willpower),
            164 => Some(Attr::Charisma),
            _ => None,
        }
    }
}

/// One skill of the plan for remap purposes: skillpoints to train and the
/// attributes it trains on.
#[derive(Debug, Clone, Copy, PartialEq)]
pub struct RemapSkill {
    pub sp: i64,
    pub primary: Attr,
    pub secondary: Attr,
}

/// A recommended remap and the resulting plan training time.
#[derive(Debug, Clone, PartialEq)]
pub struct Remap {
    pub intelligence: i64,
    pub memory: i64,
    pub perception: i64,
    pub willpower: i64,
    pub charisma: i64,
    pub train_seconds: i64,
}

/// Base value of every attribute.
pub const BASE: i64 = 17;

/// Highest value an attribute can be mapped to.
pub const MAX: i64 = 27;

/// Points distributed on top of the five bases.
pub const POOL: i64 = 14;

/// An allocation the remap rules allow: every attribute between the base
/// and the cap, the whole pool spent.
pub open spec fn is_allowed(a: [i64; 5]) -> bool {
    &&& forall|k: int| 0 <= k < 5 ==> BASE <= #[trigger] a@[k] <= MAX
    &&& a@[0] + a@[1] + a@[2] + a@[3] + a@[4] == 5 * BASE + POOL
}

/// The allocation that code `n` (0 to 11⁴ - 1) stands for: its base-11
/// digits are the points added to intelligence, memory, perception and
/// willpower, the rest of the pool goes to charisma.
pub open spec fn decode(n: int) -> [i64; 5] {
    let i = n / 1331;
    let m = (n / 121) % 11;
    let p = (n / 11) % 11;
    let w = n % 11;
    [
        (BASE + i) as i64,
        (BASE + m) as i64,
        (BASE + p) as i64,
        (BASE + w) as i64,
        (BASE + POOL - i - m - p - w) as i64,
    ]
}

/// The allocations of the codes below `n` that the rules allow, by code.
pub open spec fn alloc_list(n: int) -> Seq<[i64; 5]>
    decreases n,
{
    if n <= 0 {
        seq![]
    } else if is_allowed(decode(n - 1)) {
        alloc_list(n - 1).push(decode(n - 1))
    } else {
        alloc_list(n - 1)
    }
}

/// Number of codes: every split of the pool over the first four attributes
/// (0 to 10 points each).
pub open spec fn code_count() -> int {
    14641
}

/// The allocation used when there is nothing to compare: 3 points on each
/// of the first four attributes, 2 on charisma.
pub open spec fn fallback_alloc() -> [i64; 5] {
    [20i64, 20i64, 20i64, 20i64, 19i64]
}

/// Index of the first smallest value among the first `n` of `secs`.
pub open spec fn first_min(secs: Seq<i64>, n: int) -> int
    decreases n,
{
    if n <= 1 {
        0
    } else {
        let b = first_min(secs, n - 1);
        if secs[n - 1] < secs[b] {
            n - 1
        } else {
            b
        }
    }
}

/// The remap `pick_fastest` reports for allocations `allocs` taking
/// `secs` seconds each.
pub open spec fn fastest_spec(allocs: Seq<[i64; 5]>, secs: Seq<i64>) -> ([i64; 5], i64) {
    if allocs.len() == 0 {
        (fallback_alloc(), 0)
    } else {
        let b = first_min(secs, allocs.len() as int);
        (allocs[b], secs[b])
    }
}

/// Every allocation the rules allow, in order of the points on
/// intelligence, then memory, perception and willpower.
pub fn remap_allocations() -> (r: Vec<[i64; 5]>)
    ensures
        r@ == alloc_list(code_count()),
{
    let mut out: Vec<[i64; 5]> = Vec::new();
    let mut n: i64 = 0;
    while n < 14641
        invariant
            0 <= n <= 14641,
            out@ == alloc_list(n as int),
        decreases 14641 - n,
    {
        let i = n / 1331;
        let m = (n / 121) % 11;
        let p = (n / 11) % 11;
        let w = n % 11;
        let c = POOL - i - m - p - w;
        let a: [i64; 5] = [BASE + i, BASE + m, BASE + p, BASE + w, BASE + c];
        assert(a@ =~= decode(n as int)@);
        let ok = 0 <= c && c <= 10 && i <= 10;
        proof {
            assert(0 <= m < 11 && 0 <= p < 11 && 0 <= w < 11);
            assert(0 <= i <= 10);
            assert(ok == is_allowed(decode(n as int))) by {
                let d = decode(n as int);
                assert(d@[0] == BASE + i && d@[1] == BASE + m && d@[2] == BASE + p && d@[3] == BASE + w
                    && d@[4] == BASE + c);
                if ok {
                    assert forall|k: int| 0 <= k < 5 implies BASE <= #[trigger] d@[k] <= MAX by {}
                }
            }
        }
        if ok {
            out.push(a);
        }
        n += 1;
    }
    out
}

/// The allocation among `allocs` with the smallest training time (`secs`,
/// seconds, one per allocation; the first of equally fast ones), as a
/// remap; with no allocation, the fallback spread and 0 seconds.
pub fn pick_fastest(allocs: &[[i64; 5]], secs: &[i64]) -> (r: Remap)
    requires
        allocs@.len() == secs@.len(),
    ensures
        [r.intelligence, r.memory, r.perception, r.willpower, r.charisma] == fastest_spec(allocs@, secs@).0,
        r.train_seconds == fastest_spec(allocs@, secs@).1,
        forall|k: int| 0 <= k < secs@.len() ==> r.train_seconds <= #[trigger] secs@[k],
        allocs@.len() > 0 ==> exists|k: int|
            0 <= k < allocs@.len() && #[trigger] allocs@[k] == [r.intelligence, r.memory, r.perception, r.willpower,
                r.charisma] && secs@[k] == r.train_seconds && forall|j: int| 0 <= j < k ==> secs@[j] > secs@[k],
        allocs@.len() == 0 ==> [r.intelligence, r.memory, r.perception, r.willpower, r.charisma] == [
            20i64,
            20,
            20,
            20,
            19,
        ] && r.train_seconds == 0,
{
    if allocs.len() == 0 {
        let a: [i64; 5] = [BASE + 3, BASE + 3, BASE + 3, BASE + 3, BASE + 2];
        assert(a@ =~= fallback_alloc()@);
        return Remap {
            intelligence: a[0],
            memory: a[1],
            perception: a[2],
            willpower: a[3],
            charisma: a[4],
            train_seconds: 0,
        };
    }
    let mut best: usize = 0;
    let mut k: usize = 1;
    while k < allocs.len()
        invariant
            allocs@.len() == secs@.len(),
            1 <= k <= allocs@.len(),
            best == first_min(secs@, k as int),
            best < k,
            forall|j: int| 0 <= j < k ==> secs@[best as int] <= #[trigger] secs@[j],
        decreases allocs@.len() - k,
    {
        if secs[k] < secs[best] {
            best = k;
        }
        k += 1;
    }
    let a = allocs[best];
    let r = Remap {
        intelligence: a[0],
        memory: a[1],
        perception: a[2],
        willpower: a[3],
        charisma: a[4],
        train_seconds: secs[best],
    };
    assert([r.intelligence, r.memory, r.perception, r.willpower, r.charisma]@ =~= a@);
    proof {
        lemma_first_min_is_first_fastest(secs@, allocs@.len() as int);
        assert(allocs@[best as int] == [r.intelligence, r.memory, r.perception, r.willpower, r.charisma]);
    }
    r
}

proof fn lemma_first_min_is_first_fastest(secs: Seq<i64>, n: int)
    requires
        1 <= n <= secs.len(),
    ensures
        0 <= first_min(secs, n) < n,
        forall|j: int| 0 <= j < n ==> secs[first_min(secs, n)] <= #[trigger] secs[j],
        forall|j: int| 0 <= j < first_min(secs, n) ==> #[trigger] secs[j] > secs[first_min(secs, n)],
    decreases n,
{
    if n > 1 {
        lemma_first_min_is_first_fastest(secs, n - 1);
    }
}

/// The remap reported for allocations `allocs` taking `secs` seconds each
/// (what [`pick_fastest`] returns) is one of the allocations together with
/// its own time: the first of the fastest. With no allocation it is the
/// even spread (3 points on each of the first four attributes, 2 on
/// charisma) and 0 seconds.
pub proof fn lemma_fastest_keeps_its_time(allocs: Seq<[i64; 5]>, secs: Seq<i64>)
    requires
        allocs.len() == secs.len(),
    ensures
        allocs.len() > 0 ==> exists|k: int|
            0 <= k < allocs.len() && #[trigger] allocs[k] == fastest_spec(allocs, secs).0 && secs[k] == fastest_spec(
                allocs,
                secs,
            ).1 && (forall|j: int| 0 <= j < allocs.len() ==> secs[k] <= #[trigger] secs[j]) && (forall|j: int|
                0 <= j < k ==> secs[j] > secs[k]),
        allocs.len() == 0 ==> fastest_spec(allocs, secs) == ([20i64, 20, 20, 20, 19], 0i64),
{
    if allocs.len() > 0 {
        lemma_first_min_is_first_fastest(secs, allocs.len() as int);
        let k = first_min(secs, allocs.len() as int);
        assert(allocs[k] == fastest_spec(allocs, secs).0);
    }
}

/// The chosen remap always spends exactly the pool on top of the bases, and
/// keeps every attribute within the bounds, whatever the training times.
pub proof fn lemma_remap_spends_pool(secs: Seq<i64>)
    requires
        secs.len() == alloc_list(code_count()).len(),
    ensures
        is_allowed(fastest_spec(alloc_list(code_count()), secs).0),
{
    let l = alloc_list(code_count());
    lemma_listed_allowed(code_count());
    if l.len() == 0 {
        let f = fallback_alloc();
        assert forall|k: int| 0 <= k < 5 implies BASE <= #[trigger] f@[k] <= MAX by {}
    } else {
        lemma_first_min_in_range(secs, l.len() as int);
    }
}

proof fn lemma_listed_allowed(n: int)
    ensures
        forall|k: int| 0 <= k < alloc_list(n).len() ==> is_allowed(#[trigger] alloc_list(n)[k]),
    decreases n,
{
    if n > 0 {
        lemma_listed_allowed(n - 1);
        let prev = alloc_list(n - 1);
        assert forall|k: int| 0 <= k < alloc_list(n).len() implies is_allowed(#[trigger] alloc_list(n)[k]) by {
            if k < prev.len() {
                assert(alloc_list(n)[k] == prev[k]);
            }
        }
    }
}

proof fn lemma_first_min_in_range(secs: Seq<i64>, n: int)
    requires
        n >= 1,
    ensures
        0 <= first_min(secs, n) < n,
    decreases n,
{
    if n > 1 {
        lemma_first_min_in_range(secs, n - 1);
    }
}

proof fn lemma_listed_contains(n: int, len: int)
    requires
        0 <= n < len,
        is_allowed(decode(n)),
    ensures
        alloc_list(len).contains(decode(n)),
    decreases len,
{
    let l = alloc_list(len);
    if n == len - 1 {
        assert(l[l.len() - 1] == decode(n));
    } else {
        lemma_listed_contains(n, len - 1);
        let prev = alloc_list(len - 1);
        let k = choose|k: int| 0 <= k < prev.len() && prev[k] == decode(n);
        if is_allowed(decode(len - 1)) {
            assert(l[k] == prev[k]);
        }
    }
}

/// The list of allocations is complete: every allocation the remap rules
/// allow is on it (so the fastest listed one is the fastest allowed).
pub proof fn lemma_remap_list_complete(a: [i64; 5])
    requires
        is_allowed(a),
    ensures
        alloc_list(code_count()).contains(a),
{
    assert(BASE <= a@[0] <= MAX && BASE <= a@[1] <= MAX && BASE <= a@[2] <= MAX && BASE <= a@[3] <= MAX && BASE
        <= a@[4] <= MAX);
    let i = a@[0] - BASE;
    let m = a@[1] - BASE;
    let p = a@[2] - BASE;
    let w = a@[3] - BASE;
    let n = i * 1331 + m * 121 + p * 11 + w;
    assert(n / 1331 == i && (n / 121) % 11 == m && (n / 11) % 11 == p && n % 11 == w) by (nonlinear_arith)
        requires
            0 <= i <= 10,
            0 <= m <= 10,
            0 <= p <= 10,
            0 <= w <= 10,
            n == i * 1331 + m * 121 + p * 11 + w,
    ;
    assert(0 <= n < code_count());
    let d = decode(n);
    assert(d@ =~= a@);
    assert(d == a);
    lemma_listed_contains(n, code_count());
}

} // verus!
