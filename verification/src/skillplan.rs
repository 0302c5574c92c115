//! Skillpoint arithmetic for skill plans.
//!
//! A skill's cumulative skillpoints at level `L` (1 to 5) is
//! `round(250 × rank × 2^(2.5·(L-1)))`. For odd levels the power is a whole
//! number (1, 32, 1024); for levels 2 and 4 it is `4√2` and `128√2`, so the
//! value is `m·√2` rounded, with `m = 1000 × rank` or `32000 × rank`. All of
//! it is computed in integers.

use vstd::prelude::*;

verus! {

/// A costed plan step: the skillpoints and training time it adds.
#[derive(Debug, Clone, PartialEq)]
pub struct CostedStep {
    pub skill_type_id: i64,
    pub target_level: i64,
    pub sp: i64,
    pub seconds: i64,
}

/// A fully costed skill plan.
#[derive(Debug, Clone, PartialEq)]
pub struct PlanCost {
    pub steps: Vec<CostedStep>,
    pub total_sp: i64,
    pub total_seconds: i64,
}

/// `n` is `m·√2` rounded to the nearest integer: `n - 1/2 <= m√2 < n + 1/2`,
/// squared and doubled to stay in integers (`m√2` is never a half-integer).
pub open spec fn is_round_sqrt2(m: int, n: int) -> bool {
    &&& n >= 0
    &&& n == 0 || (2 * n - 1) * (2 * n - 1) <= 8 * m * m
    &&& 8 * m * m < (2 * n + 1) * (2 * n + 1)
}

/// The level counted: at most 5.
pub open spec fn capped_level(level: int) -> int {
    if level > 5 {
        5
    } else {
        level
    }
}

/// The multiplier of `rank` in the level's skillpoints: exact for levels
/// 1, 3 and 5 (250, 8000, 256000), the factor in front of `√2` for levels 2
/// and 4 (1000, 32000).
pub open spec fn level_factor(level: int) -> int {
    let l = capped_level(level);
    if l == 1 {
        250
    } else if l == 2 {
        1000
    } else if l == 3 {
        8000
    } else if l == 4 {
        32000
    } else {
        256000
    }
}

/// Whether the level's skillpoints carry a factor `√2` (levels 2 and 4).
pub open spec fn has_sqrt2(level: int) -> bool {
    capped_level(level) == 2 || capped_level(level) == 4
}

/// `sp` is the cumulative skillpoints of a skill of rank `rank` trained to
/// `level`: 0 for a non-positive rank or level, levels above 5 counted as 5.
pub open spec fn is_sp_for_level(rank: int, level: int, sp: int) -> bool {
    if level <= 0 || rank <= 0 {
        sp == 0
    } else if has_sqrt2(level) {
        is_round_sqrt2(level_factor(level) * rank, sp)
    } else {
        sp == level_factor(level) * rank
    }
}

proof fn lemma_round_unique(m: int, a: int, b: int)
    requires
        is_round_sqrt2(m, a),
        is_round_sqrt2(m, b),
    ensures
        a == b,
{
    if a < b {
        assert((2 * a + 1) * (2 * a + 1) <= (2 * b - 1) * (2 * b - 1)) by (nonlinear_arith)
            requires
                0 <= a < b,
        ;
    } else if b < a {
        assert((2 * b + 1) * (2 * b + 1) <= (2 * a - 1) * (2 * a - 1)) by (nonlinear_arith)
            requires
                0 <= b < a,
        ;
    }
}

/// Integer square root: the `r` with `r² <= n < (r+1)²`.
fn isqrt(n: u128) -> (r: u128)
    requires
        n < 0x4000_0000_0000_0000_0000_0000_0000_0000u128,
    ensures
        r * r <= n < (r + 1) * (r + 1),
        r < 0x1_0000_0000_0000_0000u128,
{
    let mut lo: u128 = 0;
    let mut hi: u128 = 0x1_0000_0000_0000_0000;
    assert(hi * hi > n) by (nonlinear_arith)
        requires
            hi == 0x1_0000_0000_0000_0000u128,
            n < 0x4000_0000_0000_0000_0000_0000_0000_0000u128,
    ;
    while hi - lo > 1
        invariant
            lo < hi <= 0x1_0000_0000_0000_0000u128,
            lo * lo <= n,
            n < hi * hi,
        decreases hi - lo,
    {
        let mid = lo + (hi - lo) / 2;
        assert(mid < 0x1_0000_0000_0000_0000u128);
        assert(mid * mid <= 0xffff_ffff_ffff_ffffu128 * 0xffff_ffff_ffff_ffffu128) by (nonlinear_arith)
            requires
                mid <= 0xffff_ffff_ffff_ffffu128,
        ;
        if mid * mid <= n {
            lo = mid;
        } else {
            hi = mid;
        }
    }
    assert(hi == lo + 1);
    lo
}

/// A rounded `m·√2` lies above `m` and at most at `2m` (for `m >= 2`).
proof fn lemma_round_sqrt2_between(m: int, n: int)
    requires
        m >= 2,
        is_round_sqrt2(m, n),
    ensures
        m < n <= 2 * m,
{
    if n > 2 * m {
        assert((4 * m + 1) * (4 * m + 1) <= (2 * n - 1) * (2 * n - 1)) by (nonlinear_arith)
            requires
                n > 2 * m,
                m >= 1,
        ;
        assert(8 * m * m < (4 * m + 1) * (4 * m + 1)) by (nonlinear_arith)
            requires
                m >= 1,
        ;
    }
    if n <= m {
        assert((2 * n + 1) * (2 * n + 1) <= (2 * m + 1) * (2 * m + 1)) by (nonlinear_arith)
            requires
                0 <= n <= m,
        ;
        assert((2 * m + 1) * (2 * m + 1) <= 8 * m * m) by (nonlinear_arith)
            requires
                m >= 2,
        ;
    }
}

/// `m·√2` rounded to the nearest integer.
fn round_sqrt2(m: u64) -> (n: u64)
    requires
        m <= 2_000_000_000_000_000_000,
    ensures
        is_round_sqrt2(m as int, n as int),
{
    let m2: u128 = m as u128;
    assert(m2 * m2 <= 4_000_000_000_000_000_000_000_000_000_000_000_000u128) by (nonlinear_arith)
        requires
            m2 <= 2_000_000_000_000_000_000u128,
    ;
    let mm: u128 = m2 * m2;
    let two: u128 = 2 * mm;
    let r = isqrt(two);
    // r = floor(m√2); round up when m√2 >= r + 1/2, i.e. 8m² >= (2r+1)².
    assert(r <= 3_000_000_000_000_000_000u128) by (nonlinear_arith)
        requires
            r * r <= two,
            two <= 8_000_000_000_000_000_000_000_000_000_000_000_000u128,
    ;
    assert((2 * r + 1) * (2 * r + 1) <= 40_000_000_000_000_000_000_000_000_000_000_000_000u128) by (nonlinear_arith)
        requires
            r <= 3_000_000_000_000_000_000u128,
    ;
    let up: bool = 4 * two >= (2 * r + 1) * (2 * r + 1);
    let n: u128 = if up {
        r + 1
    } else {
        r
    };
    let ghost t = two as int;
    let ghost ri = r as int;
    assert(8 * (m as int) * (m as int) == 4 * t) by (nonlinear_arith)
        requires
            t == 2 * (m2 * m2),
            m2 == m,
    ;
    if up {
        assert(4 * t < (2 * ri + 3) * (2 * ri + 3)) by (nonlinear_arith)
            requires
                t < (ri + 1) * (ri + 1),
                ri >= 0,
        ;
    } else if r > 0 {
        assert((2 * ri - 1) * (2 * ri - 1) <= 4 * t) by (nonlinear_arith)
            requires
                ri * ri <= t,
                ri >= 1,
        ;
    }
    n as u64
}

/// Cumulative skillpoints needed to have a skill of rank `rank` trained to
/// `level`: `round(250 × rank × 2^(2.5·(level-1)))`; 0 for a non-positive
/// rank or level; levels above 5 count as 5.
pub fn sp_for_level(rank: i64, level: i64) -> (sp: i64)
    requires
        256000 * rank <= i64::MAX,
    ensures
        is_sp_for_level(rank as int, level as int, sp as int),
        sp >= 0,
{
    if level <= 0 || rank <= 0 {
        return 0;
    }
    let l: i64 = if level > 5 { 5 } else { level };
    if l == 1 {
        250 * rank
    } else if l == 2 {
        let n = round_sqrt2((1000 * rank) as u64);
        proof {
            lemma_round_sqrt2_between(1000 * rank, n as int);
        }
        n as i64
    } else if l == 3 {
        8000 * rank
    } else if l == 4 {
        let n = round_sqrt2((32000 * rank) as u64);
        proof {
            lemma_round_sqrt2_between(32000 * rank, n as int);
        }
        n as i64
    } else {
        256000 * rank
    }
}

/// Skillpoints a step adds when training from `current_level` to
/// `target_level`: the difference of the two levels' skillpoints, never
/// negative (a step that does not raise the level adds none).
pub fn step_sp(rank: i64, current_level: i64, target_level: i64) -> (sp: i64)
    requires
        256000 * rank <= i64::MAX,
    ensures
        forall|from: int, to: int|
            is_sp_for_level(rank as int, current_level as int, from) && is_sp_for_level(
                rank as int,
                target_level as int,
                to,
            ) ==> sp == if to > from {
                to - from
            } else {
                0
            },
{
    let from = sp_for_level(rank, current_level);
    let to = sp_for_level(rank, target_level);
    proof {
        assert forall|f: int, t: int|
            is_sp_for_level(rank as int, current_level as int, f) && is_sp_for_level(
                rank as int,
                target_level as int,
                t,
            ) implies f == from && t == to by {
            if current_level > 0 && rank > 0 && has_sqrt2(current_level as int) {
                lemma_round_unique(level_factor(current_level as int) * rank, f, from as int);
            }
            if target_level > 0 && rank > 0 && has_sqrt2(target_level as int) {
                lemma_round_unique(level_factor(target_level as int) * rank, t, to as int);
            }
        }
    }
    if to > from {
        to - from
    } else {
        0
    }
}

/// Sum of the skillpoints of `steps`.
pub open spec fn sum_sp(steps: Seq<CostedStep>) -> int
    decreases steps.len(),
{
    if steps.len() == 0 {
        0
    } else {
        sum_sp(steps.drop_last()) + steps.last().sp
    }
}

/// Sum of the training seconds of `steps`.
pub open spec fn sum_seconds(steps: Seq<CostedStep>) -> int
    decreases steps.len(),
{
    if steps.len() == 0 {
        0
    } else {
        sum_seconds(steps.drop_last()) + steps.last().seconds
    }
}

/// A plan from its costed steps: the steps, in order, with the totals of
/// their skillpoints and seconds.
pub fn plan_cost(steps: Vec<CostedStep>) -> (p: PlanCost)
    requires
        forall|i: int| 0 <= i < steps@.len() ==> (#[trigger] steps@[i]).sp >= 0 && steps@[i].seconds >= 0,
        sum_sp(steps@) <= i64::MAX,
        sum_seconds(steps@) <= i64::MAX,
    ensures
        p.steps@ == steps@,
        p.total_sp == sum_sp(steps@),
        p.total_seconds == sum_seconds(steps@),
{
    let mut total_sp: i64 = 0;
    let mut total_seconds: i64 = 0;
    let mut k: usize = 0;
    while k < steps.len()
        invariant
            k <= steps@.len(),
            forall|i: int| 0 <= i < steps@.len() ==> (#[trigger] steps@[i]).sp >= 0 && steps@[i].seconds >= 0,
            sum_sp(steps@) <= i64::MAX,
            sum_seconds(steps@) <= i64::MAX,
            total_sp == sum_sp(steps@.take(k as int)),
            total_seconds == sum_seconds(steps@.take(k as int)),
        decreases steps@.len() - k,
    {
        proof {
            assert(steps@.take(k + 1).drop_last() =~= steps@.take(k as int));
            lemma_sums_grow(steps@, k + 1);
        }
        total_sp = total_sp + steps[k].sp;
        total_seconds = total_seconds + steps[k].seconds;
        k += 1;
    }
    assert(steps@.take(steps@.len() as int) =~= steps@);
    PlanCost { steps, total_sp, total_seconds }
}

proof fn lemma_sums_grow(steps: Seq<CostedStep>, k: int)
    requires
        0 <= k <= steps.len(),
        forall|i: int| 0 <= i < steps.len() ==> (#[trigger] steps[i]).sp >= 0 && steps[i].seconds >= 0,
    ensures
        sum_sp(steps.take(k)) <= sum_sp(steps),
        sum_seconds(steps.take(k)) <= sum_seconds(steps),
    decreases steps.len() - k,
{
    if k < steps.len() {
        let d = steps.drop_last();
        assert forall|i: int| 0 <= i < d.len() implies (#[trigger] d[i]).sp >= 0 && d[i].seconds >= 0 by {
            assert(d[i] == steps[i]);
        }
        lemma_sums_grow(d, k);
        assert(d.take(k) =~= steps.take(k));
    } else {
        assert(steps.take(k) =~= steps);
    }
}

/// For the levels whose skillpoints are whole multiples (1, 3 and 5, and
/// any non-positive level), a skill's skillpoints scale linearly with its
/// rank: rank `r` needs `r` times what rank 1 needs.
pub proof fn lemma_sp_linear_in_rank(rank: int, level: int, sp: int, sp1: int)
    requires
        rank >= 1,
        !has_sqrt2(level),
        is_sp_for_level(rank, level, sp),
        is_sp_for_level(1, level, sp1),
    ensures
        sp == rank * sp1,
{
    let f = level_factor(level);
    if level > 0 {
        assert(sp == f * rank && sp1 == f);
        assert(f * rank == rank * f) by (nonlinear_arith);
    }
}

/// Skillpoints never fall as the level rises.
pub proof fn lemma_sp_monotone_in_level(rank: int, l1: int, l2: int, sp1: int, sp2: int)
    requires
        l1 <= l2,
        is_sp_for_level(rank, l1, sp1),
        is_sp_for_level(rank, l2, sp2),
    ensures
        sp1 <= sp2,
{
    if rank > 0 && l1 > 0 {
        let c1 = capped_level(l1);
        let c2 = capped_level(l2);
        if c1 == 2 {
            lemma_round_sqrt2_between(1000 * rank, sp1);
        }
        if c1 == 4 {
            lemma_round_sqrt2_between(32000 * rank, sp1);
        }
        if c2 == 2 {
            lemma_round_sqrt2_between(1000 * rank, sp2);
        }
        if c2 == 4 {
            lemma_round_sqrt2_between(32000 * rank, sp2);
        }
        if c1 == c2 && has_sqrt2(l1) {
            lemma_round_unique(level_factor(l1) * rank, sp1, sp2);
        }
    }
}

} // verus!
