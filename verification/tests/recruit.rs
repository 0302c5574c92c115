use eve_core::recruit::{is_stage, pipeline_counts, Recruit, ACCEPTED, APPLIED, INTERVIEW, REJECTED, TRIAL};

fn r(status: &str) -> Recruit {
    Recruit {
        id: 0,
        applied_at: 0,
        name: "Applicant".into(),
        source: "forum".into(),
        notes: String::new(),
        status: status.into(),
        recruiter: String::new(),
        reviewer_note: String::new(),
        decided_at: None,
    }
}

#[test]
fn stage_validation() {
    assert!(is_stage("trial"));
    assert!(!is_stage("banished"));
}

#[test]
fn every_stage_is_valid_and_case_matters() {
    for s in [APPLIED, INTERVIEW, TRIAL, ACCEPTED, REJECTED] {
        assert!(is_stage(s));
    }
    assert!(!is_stage("Trial"));
    assert!(!is_stage(""));
}

#[test]
fn pipeline_counts_each_stage() {
    let recruits = vec![r(APPLIED), r(INTERVIEW), r(TRIAL), r(ACCEPTED), r(ACCEPTED), r(REJECTED)];
    let c = pipeline_counts(&recruits);
    assert_eq!(c.total, 6);
    assert_eq!(c.active, 3);
    assert_eq!(c.accepted, 2);
    assert_eq!(c.rejected, 1);
    assert_eq!(c.applied, 1);
}

#[test]
fn unknown_status_counts_as_applied() {
    let c = pipeline_counts(&[r("on hold"), r(INTERVIEW)]);
    assert_eq!(c.applied, 1);
    assert_eq!(c.interview, 1);
    assert_eq!(c.active, 2);
    assert_eq!(c.accepted + c.rejected, 0);
}
