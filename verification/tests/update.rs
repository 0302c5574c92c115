use eve_core::update::{is_newer, parse_semver, pick_latest, status_from_releases, Release};

fn rel(tag: &str, pre: bool, draft: bool) -> Release {
    Release {
        tag_name: Some(tag.into()),
        name: None,
        html_url: Some(format!("https://x/{tag}")),
        prerelease: pre,
        draft,
    }
}

#[test]
fn semver_compare_handles_prefix_and_suffix() {
    assert!(is_newer("1.2.3", "1.2.4"));
    assert!(is_newer("1.2.3", "v1.3.0"));
    assert!(is_newer("0.9.0", "1.0.0"));
    assert!(!is_newer("1.2.3", "1.2.3"));
    assert!(!is_newer("2.0.0", "1.9.9"));
    assert!(!is_newer("1.2.3", "1.2.3-rc1"));
    assert!(is_newer("1.2.3", "1.2.4-rc1"));
}

#[test]
fn picks_highest_stable_release() {
    let releases = vec![
        rel("v1.0.0", false, false),
        rel("v1.2.0", false, false),
        rel("v1.3.0", true, false),
        rel("v1.4.0", false, true),
    ];
    let latest = pick_latest(&releases).unwrap();
    assert_eq!(latest.tag_name.as_deref(), Some("v1.2.0"));
}

#[test]
fn semver_parts_default_to_zero() {
    assert_eq!(parse_semver("  vv2.x.7+build "), (2, 0, 7));
    assert_eq!(parse_semver("3"), (3, 0, 0));
    assert_eq!(parse_semver(""), (0, 0, 0));
    assert_eq!(parse_semver("1.2.3.4"), (1, 2, 3));
}

#[test]
fn equal_versions_pick_the_last_and_name_stands_in_for_tag() {
    let mut a = rel("v2.0.0", false, false);
    a.html_url = Some("first".into());
    let b = Release { tag_name: None, name: Some("2.0.0".into()), html_url: Some("second".into()), prerelease: false, draft: false };
    let releases = vec![a, b];
    assert_eq!(pick_latest(&releases).unwrap().html_url.as_deref(), Some("second"));
    assert!(pick_latest(&[rel("v9.0.0", true, false)]).is_none());
}

#[test]
fn status_reports_newer_release_or_none() {
    let releases = vec![rel("v1.0.0", false, false), rel("v1.1.0", false, false)];
    let s = status_from_releases("1.0.5", &releases);
    assert_eq!(s.current, "1.0.5");
    assert_eq!(s.latest, "v1.1.0");
    assert!(s.update_available);
    assert_eq!(s.url, "https://x/v1.1.0");

    let none = status_from_releases("1.0.5", &[]);
    assert_eq!(none.latest, "1.0.5");
    assert!(!none.update_available);
    assert_eq!(none.url, "");
}
