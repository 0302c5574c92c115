use eve_core::notify::{fuel_alert, skill_queue_alert, Notification, NotificationCenter, PushStatus, Severity};
use std::time::{Duration, SystemTime, UNIX_EPOCH};

/// Nanoseconds since the Unix epoch of a `SystemTime`, as the library takes instants.
fn nanos(t: SystemTime) -> i128 {
    match t.duration_since(UNIX_EPOCH) {
        Ok(d) => d.as_nanos() as i128,
        Err(e) => -(e.duration().as_nanos() as i128),
    }
}

fn now() -> SystemTime {
    SystemTime::now()
}

fn secs(s: u64) -> u128 {
    Duration::from_secs(s).as_nanos()
}

fn note(key: &str, sev: Severity) -> Notification {
    Notification::new(key, "T", "B", sev, "test", nanos(now()))
}

#[test]
fn severity_orders_info_warning_critical() {
    assert!(Severity::Info < Severity::Warning);
    assert!(Severity::Warning < Severity::Critical);
}

#[test]
fn new_above_threshold_interrupts() {
    let mut c = NotificationCenter::new(Severity::Warning);
    let r = c.push(note("a", Severity::Critical));
    assert_eq!(r.status, PushStatus::Created);
    assert!(r.interrupt);
}

#[test]
fn info_below_threshold_is_collected_not_interrupting() {
    let mut c = NotificationCenter::new(Severity::Warning);
    let r = c.push(note("a", Severity::Info));
    assert_eq!(r.status, PushStatus::Created);
    assert!(!r.interrupt); // collected, but does not interrupt
    assert_eq!(c.len(), 1);
    assert_eq!(c.unread_count(), 1);
}

#[test]
fn duplicate_is_collapsed() {
    let mut c = NotificationCenter::new(Severity::Warning);
    c.push(note("a", Severity::Critical));
    let r = c.push(note("a", Severity::Critical));
    assert_eq!(r.status, PushStatus::Duplicate);
    assert!(!r.interrupt);
    assert_eq!(c.len(), 1); // not duplicated
}

#[test]
fn changed_content_updates_and_reinterrupts() {
    let mut c = NotificationCenter::new(Severity::Warning);
    c.push(Notification::new("a", "Low fuel", "low", Severity::Warning, "fuel", nanos(now())));
    c.mark_all_read();
    assert_eq!(c.unread_count(), 0);
    // Same key, escalated → Updated, unread again, interrupts.
    let r = c.push(Notification::new("a", "Out of fuel", "empty", Severity::Critical, "fuel", nanos(now())));
    assert_eq!(r.status, PushStatus::Updated);
    assert!(r.interrupt);
    assert_eq!(c.len(), 1);
    assert_eq!(c.unread_count(), 1);
}

#[test]
fn read_and_dismiss_tracking() {
    let mut c = NotificationCenter::new(Severity::Info);
    c.push(note("a", Severity::Info));
    c.push(note("b", Severity::Warning));
    assert_eq!(c.unread_count(), 2);
    assert!(c.mark_read("a"));
    assert_eq!(c.unread_count(), 1);
    assert!(c.dismiss("b"));
    assert_eq!(c.len(), 1);
    assert!(!c.dismiss("nope"));
}

#[test]
fn fuel_rule_escalates_with_time() {
    let now = now();
    // Plenty of fuel → nothing.
    assert!(fuel_alert(1, "Astrahus", nanos(now + Duration::from_secs(86_400)), nanos(now), secs(3600)).is_none());
    // Within the warning window → Warning.
    let warn = fuel_alert(1, "Astrahus", nanos(now + Duration::from_secs(600)), nanos(now), secs(3600)).unwrap();
    assert_eq!(warn.severity, Severity::Warning);
    assert_eq!(warn.key, "fuel:1");
    // Already expired → Critical.
    let crit = fuel_alert(1, "Astrahus", nanos(now - Duration::from_secs(1)), nanos(now), secs(3600)).unwrap();
    assert_eq!(crit.severity, Severity::Critical);
}

#[test]
fn skill_queue_rule() {
    let now = now();
    let empty = skill_queue_alert(9, "Pilot", None, nanos(now), secs(3600)).unwrap();
    assert_eq!(empty.severity, Severity::Warning);
    let soon = skill_queue_alert(9, "Pilot", Some(nanos(now + Duration::from_secs(60))), nanos(now), secs(3600)).unwrap();
    assert_eq!(soon.severity, Severity::Info);
    assert!(skill_queue_alert(9, "Pilot", Some(nanos(now + Duration::from_secs(999_999))), nanos(now), secs(3600)).is_none());
}

#[test]
fn list_is_most_recent_first() {
    let mut c = NotificationCenter::new(Severity::Info);
    c.push(Notification::new("old", "T", "B", Severity::Info, "t", nanos(UNIX_EPOCH + Duration::from_secs(100))));
    c.push(Notification::new("new", "T", "B", Severity::Info, "t", nanos(UNIX_EPOCH + Duration::from_secs(200))));
    let list = c.list();
    assert_eq!(list[0].key, "new");
    assert_eq!(list[1].key, "old");
}

// ---- further checks of the center's contracts ----

#[test]
fn alert_texts_are_exact() {
    let t = nanos(UNIX_EPOCH + Duration::from_secs(1_000));
    let crit = fuel_alert(-42, "Fort", t, t, secs(10)).unwrap();
    assert_eq!(crit.key, "fuel:-42");
    assert_eq!(crit.title, "Structure out of fuel");
    assert_eq!(crit.body, "Fort has run out of fuel.");
    assert_eq!(crit.category, "fuel");
    assert_eq!(crit.created_at, 1_000);
    assert!(!crit.read);
    let low = fuel_alert(7, "Fort", t + 5_000_000_000, t, secs(10)).unwrap();
    assert_eq!(low.body, "Fort is low on fuel.");
    assert_eq!(low.title, "Structure fuel low");
    let q = skill_queue_alert(90000001, "Ann", Some(t - 1), t, 0).unwrap();
    assert_eq!(q.key, "skillqueue:90000001");
    assert_eq!(q.body, "Ann's skill queue is almost empty.");
    assert_eq!(q.severity, Severity::Info);
}

#[test]
fn created_at_before_epoch_is_zero() {
    let n = Notification::new("k", "t", "b", Severity::Info, "c", -5);
    assert_eq!(n.created_at, 0);
    let n = Notification::new("k", "t", "b", Severity::Info, "c", 2_999_999_999);
    assert_eq!(n.created_at, 2);
}

#[test]
fn severity_string_round_trip() {
    for s in [Severity::Info, Severity::Warning, Severity::Critical] {
        assert_eq!(Severity::parse(s.as_str()), s);
    }
    assert_eq!(Severity::parse("nonsense"), Severity::Warning);
    assert_eq!(Severity::Critical.as_str(), "Critical");
}

#[test]
fn repush_law_on_values() {
    let mut c = NotificationCenter::default();
    let first = c.push(note("x", Severity::Info));
    assert_eq!(first.status, PushStatus::Created);
    assert!(!first.interrupt); // default threshold is Warning
    let second = c.push(note("x", Severity::Info));
    assert_eq!(second.status, PushStatus::Duplicate);
    assert_eq!(c.len(), 1);
}

#[test]
fn update_keeps_key_and_refreshes_fields() {
    let mut c = NotificationCenter::new(Severity::Critical);
    c.push(Notification::new("s", "a", "b", Severity::Info, "one", 10_000_000_000));
    let r = c.push(Notification::new("s", "a", "b", Severity::Warning, "two", 20_000_000_000));
    assert_eq!(r.status, PushStatus::Updated);
    assert!(!r.interrupt); // below Critical
    let l = c.list();
    assert_eq!(l.len(), 1);
    assert_eq!(l[0].category, "two");
    assert_eq!(l[0].created_at, 20);
    c.set_min_interrupt(Severity::Info);
    c.clear();
    assert!(c.is_empty());
}

#[test]
fn list_ties_keep_arrival_order() {
    let mut c = NotificationCenter::new(Severity::Info);
    for k in ["a", "b", "c"] {
        c.push(Notification::new(k, "T", "B", Severity::Info, "t", 5_000_000_000));
    }
    c.push(Notification::new("d", "T", "B", Severity::Info, "t", 9_000_000_000));
    let keys: Vec<String> = c.list().into_iter().map(|n| n.key).collect();
    assert_eq!(keys, vec!["d", "a", "b", "c"]);
}

fn at(key: &str, unix_secs: u64) -> Notification {
    Notification::new(key, "T", "B", Severity::Warning, "test", secs(unix_secs) as i128)
}

#[test]
fn listing_reorders_without_loss_and_counts_unread_alike() {
    let mut c = NotificationCenter::new(Severity::Warning);
    c.push(at("old", 100));
    c.push(at("new", 200));
    c.push(at("tie", 100));
    c.mark_read("tie");
    let keys: Vec<String> = c.list().into_iter().map(|n| n.key).collect();
    assert_eq!(keys, vec!["new", "old", "tie"]);
    let unread_listed = c.list().iter().filter(|n| !n.read).count();
    assert_eq!(unread_listed, c.unread_count());
    assert_eq!(c.unread_count(), 2);
}

#[test]
fn mark_all_read_keeps_the_listing_order() {
    let mut c = NotificationCenter::new(Severity::Info);
    c.push(at("a", 300));
    c.push(at("b", 500));
    c.push(at("c", 400));
    let before: Vec<(String, bool)> = c.list().into_iter().map(|n| (n.key, n.read)).collect();
    c.mark_all_read();
    let after: Vec<(String, bool)> = c.list().into_iter().map(|n| (n.key, n.read)).collect();
    assert_eq!(c.unread_count(), 0);
    assert_eq!(after, before.into_iter().map(|(k, _)| (k, true)).collect::<Vec<_>>());
}

#[test]
fn new_threshold_keeps_listing_and_governs_next_push() {
    let mut c = NotificationCenter::new(Severity::Info);
    c.push(at("a", 300));
    let before: Vec<String> = c.list().into_iter().map(|n| n.key).collect();
    c.set_min_interrupt(Severity::Critical);
    let after: Vec<String> = c.list().into_iter().map(|n| n.key).collect();
    assert_eq!(before, after);
    let r = c.push(at("b", 400));
    assert_eq!(r.status, PushStatus::Created);
    assert!(!r.interrupt);
    let r = c.push(Notification::new("c", "T", "B", Severity::Critical, "test", secs(401) as i128));
    assert!(r.interrupt);
}
