//! Recruitment pipeline: applicants move through applied, interview and
//! trial to accepted or rejected; the board counts each stage.

use vstd::prelude::*;
use crate::text::str_eq;

verus! {

/// Stage of a fresh application.
pub const APPLIED: &'static str = "applied";

/// Stage of an applicant being interviewed.
pub const INTERVIEW: &'static str = "interview";

/// Stage of an applicant on trial.
pub const TRIAL: &'static str = "trial";

/// Stage of an accepted applicant.
pub const ACCEPTED: &'static str = "accepted";

/// Stage of a rejected applicant.
pub const REJECTED: &'static str = "rejected";

/// One applicant in the pipeline.
#[derive(Debug, Clone, PartialEq)]
pub struct Recruit {
    pub id: i64,
    pub applied_at: i64,
    pub name: String,
    /// Where they came from (forum, in-game, referral, ...).
    pub source: String,
    pub notes: String,
    /// One of the stages.
    pub status: String,
    /// Who handles the application.
    pub recruiter: String,
    pub reviewer_note: String,
    pub decided_at: Option<i64>,
}

/// Number of applicants at each stage.
#[derive(Debug, Clone, PartialEq, Eq)]
pub struct PipelineCounts {
    pub total: usize,
    pub applied: usize,
    pub interview: usize,
    pub trial: usize,
    pub accepted: usize,
    pub rejected: usize,
    /// Still in the pipeline: applied, interview and trial.
    pub active: usize,
}

/// The stage names, in funnel order.
pub open spec fn stages() -> Seq<Seq<char>> {
    seq![APPLIED@, INTERVIEW@, TRIAL@, ACCEPTED@, REJECTED@]
}

/// Number of applicants whose status is `stage`.
pub open spec fn count_status(rs: Seq<Recruit>, stage: Seq<char>) -> nat
    decreases rs.len(),
{
    if rs.len() == 0 {
        0
    } else {
        count_status(rs.drop_last(), stage) + if rs.last().status@ == stage {
            1nat
        } else {
            0nat
        }
    }
}

/// Number of applicants whose status is none of interview, trial, accepted
/// and rejected (counted as applied).
pub open spec fn count_other(rs: Seq<Recruit>) -> nat
    decreases rs.len(),
{
    if rs.len() == 0 {
        0
    } else {
        let st = rs.last().status@;
        count_other(rs.drop_last()) + if st != INTERVIEW@ && st != TRIAL@ && st != ACCEPTED@ && st
            != REJECTED@ {
            1nat
        } else {
            0nat
        }
    }
}

proof fn lemma_stages_distinct()
    ensures
        INTERVIEW@ != TRIAL@,
        INTERVIEW@ != ACCEPTED@,
        INTERVIEW@ != REJECTED@,
        TRIAL@ != ACCEPTED@,
        TRIAL@ != REJECTED@,
        ACCEPTED@ != REJECTED@,
{
    reveal_strlit("interview");
    reveal_strlit("trial");
    reveal_strlit("accepted");
    reveal_strlit("rejected");
    assert(INTERVIEW@.len() != TRIAL@.len());
    assert(INTERVIEW@.len() != ACCEPTED@.len());
    assert(INTERVIEW@.len() != REJECTED@.len());
    assert(TRIAL@.len() != ACCEPTED@.len());
    assert(TRIAL@.len() != REJECTED@.len());
    assert(ACCEPTED@[0] != REJECTED@[0]);
}

/// Whether `status` is one of the pipeline stages.
pub fn is_stage(status: &str) -> (r: bool)
    ensures
        r == stages().contains(status@),
{
    let r = str_eq(status, APPLIED) || str_eq(status, INTERVIEW) || str_eq(status, TRIAL)
        || str_eq(status, ACCEPTED) || str_eq(status, REJECTED);
    proof {
        let s = stages();
        if r {
            if status@ == APPLIED@ {
                assert(s[0] == status@);
            } else if status@ == INTERVIEW@ {
                assert(s[1] == status@);
            } else if status@ == TRIAL@ {
                assert(s[2] == status@);
            } else if status@ == ACCEPTED@ {
                assert(s[3] == status@);
            } else {
                assert(s[4] == status@);
            }
        }
    }
    r
}

/// Counts the pipeline: applicants per stage (a status that is not a later
/// stage counts as applied), the active ones (applied, interview, trial)
/// and the total.
pub fn pipeline_counts(recruits: &[Recruit]) -> (c: PipelineCounts)
    ensures
        c.total == recruits@.len(),
        c.applied == count_other(recruits@),
        c.interview == count_status(recruits@, INTERVIEW@),
        c.trial == count_status(recruits@, TRIAL@),
        c.accepted == count_status(recruits@, ACCEPTED@),
        c.rejected == count_status(recruits@, REJECTED@),
        c.active == c.applied + c.interview + c.trial,
{
    let ghost rs = recruits@;
    let mut c = PipelineCounts {
        total: recruits.len(),
        applied: 0,
        interview: 0,
        trial: 0,
        accepted: 0,
        rejected: 0,
        active: 0,
    };
    let mut k: usize = 0;
    while k < recruits.len()
        invariant
            rs == recruits@,
            k <= rs.len(),
            c.total == rs.len(),
            c.applied == count_other(rs.take(k as int)),
            c.interview == count_status(rs.take(k as int), INTERVIEW@),
            c.trial == count_status(rs.take(k as int), TRIAL@),
            c.accepted == count_status(rs.take(k as int), ACCEPTED@),
            c.rejected == count_status(rs.take(k as int), REJECTED@),
            c.active == c.applied + c.interview + c.trial,
            c.applied + c.interview + c.trial + c.accepted + c.rejected == k,
        decreases rs.len() - k,
    {
        let st = recruits[k].status.as_str();
        proof {
            lemma_stages_distinct();
            assert(rs.take(k + 1).drop_last() =~= rs.take(k as int));
            assert(rs.take(k + 1).last() == rs[k as int]);
        }
        if str_eq(st, INTERVIEW) {
            c.interview += 1;
            c.active += 1;
        } else if str_eq(st, TRIAL) {
            c.trial += 1;
            c.active += 1;
        } else if str_eq(st, ACCEPTED) {
            c.accepted += 1;
        } else if str_eq(st, REJECTED) {
            c.rejected += 1;
        } else {
            c.applied += 1;
            c.active += 1;
        }
        k += 1;
    }
    assert(rs.take(rs.len() as int) =~= rs);
    c
}

} // verus!
