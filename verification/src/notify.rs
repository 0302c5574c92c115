//! Calm notifications: a collecting notification center with severity tiers.
//!
//! Low-severity events accumulate in a center the user can glance at, while
//! only events at or above a configurable threshold ask for an OS toast.
//! Events are de-duplicated by a stable `key`, so a condition that persists
//! across many poll ticks produces a single, updatable entry.
//!
//! Instants are nanoseconds since the Unix epoch (`i128`, negative before it)
//! and durations are nanoseconds (`u128`, as `Duration::as_nanos` gives them).

use vstd::prelude::*;
use crate::text::{int_text, int_to_string, str_eq};

verus! {

/// Nanoseconds per second.
pub const NANOS_PER_SEC: i128 = 1_000_000_000;

/// Severity tiers, ordered `Info < Warning < Critical` (the derived `Ord`
/// follows declaration order, as [`Severity::level`] does).
#[derive(Debug, Clone, Copy, PartialEq, Eq, Structural, PartialOrd, Ord, Hash)]
pub enum Severity {
    Info,
    Warning,
    Critical,
}

/// The stable string form of a severity.
pub open spec fn severity_name(s: Severity) -> Seq<char> {
    match s {
        Severity::Info => "Info"@,
        Severity::Warning => "Warning"@,
        Severity::Critical => "Critical"@,
    }
}

impl Severity {
    /// Position in the order `Info < Warning < Critical`.
    pub open spec fn level(self) -> int {
        match self {
            Severity::Info => 0,
            Severity::Warning => 1,
            Severity::Critical => 2,
        }
    }

    /// Whether `self` is at or above `other` in the severity order.
    pub fn at_least(self, other: Severity) -> (r: bool)
        ensures
            r == (self.level() >= other.level()),
    {
        let a: u8 = match self {
            Severity::Info => 0,
            Severity::Warning => 1,
            Severity::Critical => 2,
        };
        let b: u8 = match other {
            Severity::Info => 0,
            Severity::Warning => 1,
            Severity::Critical => 2,
        };
        a >= b
    }

    /// Stable string form (for persistence / UI).
    pub fn as_str(self) -> (r: &'static str)
        ensures
            r@ == severity_name(self),
    {
        match self {
            Severity::Info => "Info",
            Severity::Warning => "Warning",
            Severity::Critical => "Critical",
        }
    }

    /// Parse from [`as_str`](Self::as_str); unknown values fall back to Warning.
    pub fn parse(s: &str) -> (r: Severity)
        ensures
            r == (if s@ == "Info"@ {
                Severity::Info
            } else if s@ == "Critical"@ {
                Severity::Critical
            } else {
                Severity::Warning
            }),
    {
        if str_eq(s, "Info") {
            Severity::Info
        } else if str_eq(s, "Critical") {
            Severity::Critical
        } else {
            Severity::Warning
        }
    }
}

/// Parsing the string form of a severity gives that severity back.
pub proof fn lemma_severity_round_trip(s: Severity)
    ensures
        (if severity_name(s) == "Info"@ {
            Severity::Info
        } else if severity_name(s) == "Critical"@ {
            Severity::Critical
        } else {
            Severity::Warning
        }) == s,
{
    reveal_strlit("Info");
    reveal_strlit("Warning");
    reveal_strlit("Critical");
    assert("Info"@.len() != "Critical"@.len());
    assert("Warning"@.len() != "Info"@.len());
    assert("Warning"@.len() != "Critical"@.len());
}

/// Whole seconds since the Unix epoch of an instant (0 before the epoch).
pub open spec fn epoch_secs(nanos: int) -> int {
    if nanos < 0 {
        0
    } else {
        nanos / NANOS_PER_SEC as int
    }
}

/// An instant that a `SystemTime` can hold: less than `u64::MAX + 1`
/// seconds away from the epoch either way.
pub open spec fn representable(nanos: int) -> bool {
    -18446744073709551616000000000 < nanos < 18446744073709551616000000000
}

/// A single notification. De-duplication is by [`key`](Self::key).
#[derive(Debug, Clone, PartialEq, Eq)]
pub struct Notification {
    /// Stable de-dup key, e.g. `"fuel:1029384756"` or `"skillqueue:90000001"`.
    pub key: String,
    pub title: String,
    pub body: String,
    pub severity: Severity,
    /// Coarse grouping for the UI (e.g. `"industry"`, `"intel"`, `"fuel"`).
    pub category: String,
    /// Unix epoch seconds when first raised (or last updated).
    pub created_at: u64,
    pub read: bool,
}

fn to_epoch(now: i128) -> (r: u64)
    requires
        representable(now as int),
    ensures
        r == epoch_secs(now as int),
{
    if now < 0 {
        0
    } else {
        (now / NANOS_PER_SEC) as u64
    }
}

impl Notification {
    /// Build an unread notification stamped `now`.
    pub fn new(key: &str, title: &str, body: &str, severity: Severity, category: &str, now: i128) -> (r:
        Notification)
        requires
            representable(now as int),
        ensures
            r.key@ == key@,
            r.title@ == title@,
            r.body@ == body@,
            r.severity == severity,
            r.category@ == category@,
            r.created_at == epoch_secs(now as int),
            !r.read,
    {
        Notification {
            key: key.to_owned(),
            title: title.to_owned(),
            body: body.to_owned(),
            severity,
            category: category.to_owned(),
            created_at: to_epoch(now),
            read: false,
        }
    }
}

fn copy_notification(n: &Notification) -> (r: Notification)
    ensures
        r == *n,
{
    Notification {
        key: n.key.clone(),
        title: n.title.clone(),
        body: n.body.clone(),
        severity: n.severity,
        category: n.category.clone(),
        created_at: n.created_at,
        read: n.read,
    }
}

/// What happened when a notification was pushed into the center.
#[derive(Debug, Clone, Copy, PartialEq, Eq, Structural)]
pub enum PushStatus {
    /// First time we've seen this key.
    Created,
    /// Same key, but the content changed (e.g. fuel went from low to empty).
    Updated,
    /// Same key, identical content — collapsed, nothing changed.
    Duplicate,
}

/// Result of a push: what changed and whether the shell should raise an OS toast.
#[derive(Debug, Clone, Copy, PartialEq, Eq, Structural)]
pub struct PushResult {
    pub status: PushStatus,
    /// True iff the entry is new-or-changed AND meets the interrupt threshold.
    pub interrupt: bool,
}

/// Index of the first entry whose key is `k`, or `s.len()` when none is.
pub open spec fn key_pos(s: Seq<Notification>, k: Seq<char>) -> nat
    decreases s.len(),
{
    if s.len() == 0 {
        0
    } else if s[0].key@ == k {
        0
    } else {
        1 + key_pos(s.drop_first(), k)
    }
}

proof fn lemma_key_pos_is(s: Seq<Notification>, k: Seq<char>, i: int)
    requires
        0 <= i <= s.len(),
        forall|j: int| 0 <= j < i ==> s[j].key@ != k,
        i < s.len() ==> s[i].key@ == k,
    ensures
        key_pos(s, k) == i,
    decreases i,
{
    if i > 0 {
        assert forall|j: int| 0 <= j < i - 1 implies s.drop_first()[j].key@ != k by {
            assert(s.drop_first()[j] == s[j + 1]);
        }
        lemma_key_pos_is(s.drop_first(), k, i - 1);
    }
}

/// No two entries share a key.
pub open spec fn keys_distinct(s: Seq<Notification>) -> bool {
    forall|i: int, j: int| 0 <= i < j < s.len() ==> s[i].key@ != s[j].key@
}

/// Some entry has key `k`.
pub open spec fn has_key(s: Seq<Notification>, k: Seq<char>) -> bool {
    exists|i: int| 0 <= i < s.len() && s[i].key@ == k
}

/// Title, body and severity agree: a re-push changes nothing.
pub open spec fn same_content(e: Notification, n: Notification) -> bool {
    e.title@ == n.title@ && e.body@ == n.body@ && e.severity == n.severity
}

/// The entry `e` after a changed re-push of `n`: keeps its key, takes the
/// rest from `n`, and is unread again.
pub open spec fn refreshed(e: Notification, n: Notification) -> Notification {
    Notification {
        key: e.key,
        title: n.title,
        body: n.body,
        severity: n.severity,
        category: n.category,
        created_at: n.created_at,
        read: false,
    }
}

/// Number of unread entries.
pub open spec fn count_unread(s: Seq<Notification>) -> nat
    decreases s.len(),
{
    if s.len() == 0 {
        0
    } else {
        count_unread(s.drop_last()) + if s.last().read {
            0nat
        } else {
            1nat
        }
    }
}

/// Entries in non-increasing order of `created_at`.
pub open spec fn newest_first(s: Seq<Notification>) -> bool {
    forall|i: int, j: int| 0 <= i < j < s.len() ==> s[i].created_at >= s[j].created_at
}

/// The entries stamped `t`, in their order.
pub open spec fn stamped(s: Seq<Notification>, t: u64) -> Seq<Notification> {
    s.filter(|x: Notification| x.created_at == t)
}

/// Collects notifications, de-duplicating by key, and decides which ones are
/// allowed to interrupt with an OS toast.
#[derive(Debug, Clone)]
pub struct NotificationCenter {
    items: Vec<Notification>,
    /// Minimum severity that may raise an OS toast; below this, entries are
    /// collected silently.
    min_interrupt: Severity,
}

impl NotificationCenter {
    /// The collected notifications, in arrival order.
    pub closed spec fn entries(self) -> Seq<Notification> {
        self.items@
    }

    /// The minimum severity that interrupts.
    pub closed spec fn threshold(self) -> Severity {
        self.min_interrupt
    }

    /// Well-formed: keys are unique.
    pub open spec fn wf(self) -> bool {
        keys_distinct(self.entries())
    }

    /// Create an empty center that only toasts at or above `min_interrupt`.
    pub fn new(min_interrupt: Severity) -> (r: NotificationCenter)
        ensures
            r.wf(),
            r.entries() == Seq::<Notification>::empty(),
            r.threshold() == min_interrupt,
    {
        NotificationCenter { items: Vec::new(), min_interrupt }
    }

    /// Change the interrupt threshold (user setting).
    pub fn set_min_interrupt(&mut self, min_interrupt: Severity)
        ensures
            final(self).entries() == old(self).entries(),
            final(self).threshold() == min_interrupt,
    {
        self.min_interrupt = min_interrupt;
    }

    fn find_key(&self, key: &String) -> (r: usize)
        ensures
            r == key_pos(self.entries(), key@),
            r <= self.entries().len(),
    {
        let mut i: usize = 0;
        while i < self.items.len()
            invariant
                i <= self.items@.len(),
                forall|j: int| 0 <= j < i ==> self.items@[j].key@ != key@,
            decreases self.items@.len() - i,
        {
            if self.items[i].key == *key {
                proof {
                    lemma_key_pos_is(self.items@, key@, i as int);
                }
                return i;
            }
            i += 1;
        }
        proof {
            lemma_key_pos_is(self.items@, key@, i as int);
        }
        i
    }

    /// Push a notification, collapsing by key. Returns what changed and whether
    /// the shell should raise an OS toast.
    pub fn push(&mut self, notification: Notification) -> (r: PushResult)
        requires
            old(self).wf(),
        ensures
            push_post(*old(self), *final(self), notification, r),
    {
        let meets = notification.severity.at_least(self.min_interrupt);
        let i = self.find_key(&notification.key);
        proof {
            lemma_key_pos_props(self.items@, notification.key@);
        }
        if i < self.items.len() {
            let e = &self.items[i];
            let changed = e.title != notification.title || e.body != notification.body
                || e.severity != notification.severity;
            if !changed {
                return PushResult { status: PushStatus::Duplicate, interrupt: false };
            }
            let key = e.key.clone();
            let ghost old_items = self.items@;
            let updated = Notification {
                key,
                title: notification.title,
                body: notification.body,
                severity: notification.severity,
                category: notification.category,
                created_at: notification.created_at,
                read: false,
            };
            self.items.set(i, updated);
            proof {
                assert forall|a: int, b: int| 0 <= a < b < self.items@.len() implies
                    self.items@[a].key@ != self.items@[b].key@ by {
                    assert(old_items[a].key@ != old_items[b].key@);
                }
            }
            return PushResult { status: PushStatus::Updated, interrupt: meets };
        }
        let ghost old_items = self.items@;
        self.items.push(notification);
        proof {
            assert forall|a: int, b: int| 0 <= a < b < self.items@.len() implies
                self.items@[a].key@ != self.items@[b].key@ by {
                if b < old_items.len() {
                    assert(old_items[a].key@ != old_items[b].key@);
                } else {
                    assert(old_items[a].key@ != self.items@[b].key@);
                }
            }
        }
        PushResult { status: PushStatus::Created, interrupt: meets }
    }

    /// Number of unread notifications (drives the rail badge).
    pub fn unread_count(&self) -> (r: usize)
        ensures
            r == count_unread(self.entries()),
    {
        let mut n: usize = 0;
        let mut i: usize = 0;
        while i < self.items.len()
            invariant
                i <= self.items@.len(),
                n == count_unread(self.items@.take(i as int)),
                n <= i,
            decreases self.items@.len() - i,
        {
            assert(self.items@.take(i + 1).drop_last() =~= self.items@.take(i as int));
            if !self.items[i].read {
                n += 1;
            }
            i += 1;
        }
        assert(self.items@.take(i as int) =~= self.items@);
        n
    }

    /// Total collected notifications.
    pub fn len(&self) -> (r: usize)
        ensures
            r == self.entries().len(),
    {
        self.items.len()
    }

    /// Whether the center holds no notification.
    pub fn is_empty(&self) -> (r: bool)
        ensures
            r == (self.entries().len() == 0),
    {
        self.items.len() == 0
    }

    /// All notifications, most recent first (ties keep arrival order).
    pub fn list(&self) -> (r: Vec<Notification>)
        ensures
            newest_first(r@),
            forall|t: u64| #[trigger] stamped(r@, t) == stamped(self.entries(), t),
            r@.len() == self.entries().len(),
    {
        let mut out: Vec<Notification> = Vec::new();
        let mut k: usize = 0;
        while k < self.items.len()
            invariant
                k <= self.items@.len(),
                newest_first(out@),
                forall|t: u64| #[trigger] stamped(out@, t) == stamped(self.items@.take(k as int), t),
                out@.len() == k,
            decreases self.items@.len() - k,
        {
            let x = copy_notification(&self.items[k]);
            let mut p: usize = 0;
            while p < out.len() && out[p].created_at >= x.created_at
                invariant
                    p <= out@.len(),
                    forall|j: int| 0 <= j < p ==> out@[j].created_at >= x.created_at,
                decreases out@.len() - p,
            {
                p += 1;
            }
            let ghost before = out@;
            proof {
                lemma_insert_sorted(before, x, p as int);
                assert(self.items@.take(k + 1) =~= self.items@.take(k as int).push(x));
                assert forall|t: u64| #[trigger] stamped(before.insert(p as int, x), t)
                    == stamped(self.items@.take(k + 1), t) by {
                    self.items@.take(k as int).lemma_filter_push(x, |y: Notification| y.created_at == t);
                }
            }
            out.insert(p, x);
            k += 1;
        }
        assert(self.items@.take(k as int) =~= self.items@);
        out
    }

    /// Mark every notification read.
    pub fn mark_all_read(&mut self)
        requires
            old(self).wf(),
        ensures
            final(self).wf(),
            final(self).threshold() == old(self).threshold(),
            final(self).entries().len() == old(self).entries().len(),
            forall|i: int|
                0 <= i < old(self).entries().len() ==> #[trigger] final(self).entries()[i] == (
                Notification { read: true, ..old(self).entries()[i] }),
    {
        let mut i: usize = 0;
        while i < self.items.len()
            invariant
                i <= self.items@.len(),
                self.items@.len() == old(self).items@.len(),
                self.min_interrupt == old(self).min_interrupt,
                forall|j: int|
                    0 <= j < i ==> #[trigger] self.items@[j] == (Notification {
                        read: true,
                        ..old(self).items@[j]
                    }),
                forall|j: int| i <= j < self.items@.len() ==> #[trigger] self.items@[j] == old(
                    self,
                ).items@[j],
            decreases self.items@.len() - i,
        {
            let mut n = copy_notification(&self.items[i]);
            n.read = true;
            self.items.set(i, n);
            i += 1;
        }
        proof {
            assert forall|a: int, b: int| 0 <= a < b < self.items@.len() implies
                self.items@[a].key@ != self.items@[b].key@ by {
                assert(old(self).items@[a].key@ != old(self).items@[b].key@);
            }
        }
    }

    /// Mark one notification read by key; returns whether it was found.
    pub fn mark_read(&mut self, key: &str) -> (r: bool)
        requires
            old(self).wf(),
        ensures
            final(self).wf(),
            final(self).threshold() == old(self).threshold(),
            r == has_key(old(self).entries(), key@),
            ({
                let s = old(self).entries();
                let i = key_pos(s, key@);
                if r {
                    final(self).entries() == s.update(i as int, Notification { read: true, ..s[i as int] })
                } else {
                    final(self).entries() == s
                }
            }),
    {
        let k = key.to_owned();
        let i = self.find_key(&k);
        proof {
            lemma_key_pos_props(self.items@, key@);
        }
        if i < self.items.len() {
            let ghost old_items = self.items@;
            let mut n = copy_notification(&self.items[i]);
            n.read = true;
            self.items.set(i, n);
            proof {
                assert forall|a: int, b: int| 0 <= a < b < self.items@.len() implies
                    self.items@[a].key@ != self.items@[b].key@ by {
                    assert(old_items[a].key@ != old_items[b].key@);
                }
            }
            true
        } else {
            false
        }
    }

    /// Remove the notification with this key (e.g. the condition cleared);
    /// returns whether one was removed.
    #[verifier::loop_isolation(false)]
    pub fn dismiss(&mut self, key: &str) -> (r: bool)
        requires
            old(self).wf(),
        ensures
            final(self).wf(),
            final(self).threshold() == old(self).threshold(),
            r == has_key(old(self).entries(), key@),
            final(self).entries() == old(self).entries().filter(|x: Notification| x.key@ != key@),
            !has_key(final(self).entries(), key@),
    {
        let k = key.to_owned();
        let ghost pred = |x: Notification| x.key@ != key@;
        let ghost s = self.items@;
        let mut kept: Vec<Notification> = Vec::new();
        let mut found = false;
        let mut i: usize = 0;
        while i < self.items.len()
            invariant
                i <= self.items@.len(),
                self.items@ == s,
                kept@ == s.take(i as int).filter(pred),
                found == has_key(s.take(i as int), key@),
            decreases self.items@.len() - i,
        {
            proof {
                assert(s.take(i + 1) =~= s.take(i as int).push(s[i as int]));
                s.take(i as int).lemma_filter_push(s[i as int], pred);
                let t1 = s.take(i + 1);
                let t0 = s.take(i as int);
                if has_key(t1, key@) && s[i as int].key@ != key@ {
                    let j = choose|j: int| 0 <= j < t1.len() && #[trigger] t1[j].key@ == key@;
                    assert(t0[j].key@ == key@);
                }
                if has_key(t0, key@) {
                    let j = choose|j: int| 0 <= j < t0.len() && #[trigger] t0[j].key@ == key@;
                    assert(t1[j].key@ == key@);
                }
                if s[i as int].key@ == key@ {
                    assert(s.take(i + 1)[i as int].key@ == key@);
                }
            }
            if self.items[i].key == k {
                found = true;
            } else {
                kept.push(copy_notification(&self.items[i]));
            }
            i += 1;
        }
        proof {
            assert(s.take(i as int) =~= s);
            assert forall|a: int, b: int| 0 <= a < b < kept@.len() implies
                kept@[a].key@ != kept@[b].key@ by {
                lemma_filter_preserves_distinct(s, pred, a, b);
            }
            if has_key(kept@, key@) {
                let j = choose|j: int| 0 <= j < kept@.len() && kept@[j].key@ == key@;
                s.lemma_filter_pred(pred, j);
            }
        }
        self.items = kept;
        found
    }

    /// Drop every notification.
    pub fn clear(&mut self)
        ensures
            final(self).wf(),
            final(self).entries() == Seq::<Notification>::empty(),
            final(self).threshold() == old(self).threshold(),
    {
        self.items = Vec::new();
    }
}

proof fn lemma_key_pos_props(s: Seq<Notification>, k: Seq<char>)
    ensures
        key_pos(s, k) <= s.len(),
        key_pos(s, k) < s.len() ==> s[key_pos(s, k) as int].key@ == k,
        forall|j: int| 0 <= j < key_pos(s, k) ==> s[j].key@ != k,
        has_key(s, k) <==> key_pos(s, k) < s.len(),
    decreases s.len(),
{
    if s.len() > 0 && s[0].key@ != k {
        lemma_key_pos_props(s.drop_first(), k);
        assert forall|j: int| 0 <= j < key_pos(s, k) implies s[j].key@ != k by {
            if j > 0 {
                assert(s[j] == s.drop_first()[j - 1]);
            }
        }
        if has_key(s, k) {
            let j = choose|j: int| 0 <= j < s.len() && s[j].key@ == k;
            assert(s.drop_first()[j - 1].key@ == k);
        }
        if key_pos(s, k) < s.len() {
            assert(s[key_pos(s, k) as int] == s.drop_first()[key_pos(s.drop_first(), k) as int]);
        }
    } else if s.len() > 0 {
        assert(s[0].key@ == k);
    }
}

proof fn lemma_insert_sorted(before: Seq<Notification>, x: Notification, p: int)
    requires
        newest_first(before),
        0 <= p <= before.len(),
        forall|j: int| 0 <= j < p ==> before[j].created_at >= x.created_at,
        p < before.len() ==> before[p].created_at < x.created_at,
    ensures
        newest_first(before.insert(p, x)),
        forall|t: u64| #[trigger] stamped(before.insert(p, x), t) == if x.created_at == t {
            stamped(before, t).push(x)
        } else {
            stamped(before, t)
        },
{
    let after = before.insert(p, x);
    assert forall|i: int, j: int| 0 <= i < j < after.len() implies after[i].created_at
        >= after[j].created_at by {
        if j < p {
        } else if j == p {
        } else if i < p {
            assert(after[j] == before[j - 1]);
            assert(before[p].created_at < x.created_at);
        } else if i == p {
            assert(after[j] == before[j - 1]);
            assert(before[p].created_at >= before[j - 1].created_at);
        } else {
            assert(after[j] == before[j - 1]);
            assert(after[i] == before[i - 1]);
        }
    }
    assert forall|t: u64| #[trigger] stamped(after, t) == if x.created_at == t {
        stamped(before, t).push(x)
    } else {
        stamped(before, t)
    } by {
        let pred = |y: Notification| y.created_at == t;
        let a = before.take(p);
        let b = before.skip(p);
        assert(before =~= a + b);
        assert(after =~= a.push(x) + b);
        Seq::filter_distributes_over_add(a, b, pred);
        Seq::filter_distributes_over_add(a.push(x), b, pred);
        a.lemma_filter_push(x, pred);
        if x.created_at == t {
            assert forall|j: int| 0 <= j < b.len() implies !pred(#[trigger] b[j]) by {
                assert(b[j] == before[p + j]);
                assert(before[p].created_at >= before[p + j].created_at);
            }
            assert(b.filter(pred).len() == 0) by {
                if b.filter(pred).len() > 0 {
                    let e = b.filter(pred)[0];
                    b.lemma_filter_pred(pred, 0);
                    assert(b.filter(pred).contains(e));
                    b.lemma_filter_contains_rev(pred, e);
                    let j = choose|j: int| 0 <= j < b.len() && b[j] == e;
                    assert(!pred(b[j]));
                }
            }
            assert(b.filter(pred) =~= Seq::<Notification>::empty());
            assert(a.filter(pred).push(x) + b.filter(pred) =~= (a.filter(pred) + b.filter(pred)).push(x));
        }
    }
}

proof fn lemma_filter_preserves_distinct(s: Seq<Notification>, pred: spec_fn(Notification) -> bool, a: int, b: int)
    requires
        keys_distinct(s),
        0 <= a < b < s.filter(pred).len(),
    ensures
        s.filter(pred)[a].key@ != s.filter(pred)[b].key@,
    decreases s.len(),
{
    reveal(Seq::filter);
    let f = s.filter(pred);
    if s.len() > 0 {
        let rest = s.drop_last();
        assert(keys_distinct(rest)) by {
            assert forall|i: int, j: int| 0 <= i < j < rest.len() implies rest[i].key@ != rest[j].key@ by {
                assert(rest[i] == s[i] && rest[j] == s[j]);
            }
        }
        rest.lemma_filter_push(s.last(), pred);
        assert(rest.push(s.last()) =~= s);
        if pred(s.last()) && b == f.len() - 1 {
            assert(f[b] == s.last());
            assert(f[a] == rest.filter(pred)[a]);
            let rf = rest.filter(pred);
            assert(rf[a] == f[a]);
            assert(rf.contains(f[a]));
            rest.lemma_filter_contains_rev(pred, f[a]);
            assert(rest.contains(f[a]));
            let i = choose|i: int| 0 <= i < rest.len() && rest[i] == f[a];
            assert(s[i] == rest[i]);
            assert(s[i].key@ != s[s.len() - 1].key@);
        } else {
            lemma_filter_preserves_distinct(rest, pred, a, b);
            if pred(s.last()) {
                assert(f[a] == rest.filter(pred)[a]);
                assert(f[b] == rest.filter(pred)[b]);
            }
        }
    }
}

/// How often `x` occurs in what `p` keeps of `s`: as often as in `s` when
/// `p(x)`, never otherwise.
proof fn lemma_filter_count(s: Seq<Notification>, p: spec_fn(Notification) -> bool, x: Notification)
    ensures
        s.filter(p).to_multiset().count(x) == if p(x) {
            s.to_multiset().count(x)
        } else {
            0
        },
    decreases s.len(),
{
    broadcast use vstd::seq_lib::group_to_multiset_ensures;

    if s.len() == 0 {
        s.lemma_filter_len(p);
        assert(!s.filter(p).contains(x));
        assert(!s.contains(x));
    } else {
        let d = s.drop_last();
        lemma_filter_count(d, p, x);
        assert(d.push(s.last()) =~= s);
        d.lemma_filter_push(s.last(), p);
    }
}

/// Unread entries of `s` but for entry `j`, plus that one if unread.
proof fn lemma_unread_remove(s: Seq<Notification>, j: int)
    requires
        0 <= j < s.len(),
    ensures
        count_unread(s) == count_unread(s.remove(j)) + if s[j].read {
            0nat
        } else {
            1nat
        },
    decreases s.len(),
{
    if j < s.len() - 1 {
        lemma_unread_remove(s.drop_last(), j);
        assert(s.remove(j).drop_last() =~= s.drop_last().remove(j));
        assert(s.remove(j).last() == s.last());
    } else {
        assert(s.remove(j) =~= s.drop_last());
    }
}

/// Two lists with the same entries, each as often, have as many unread.
proof fn lemma_unread_same_entries(r: Seq<Notification>, s: Seq<Notification>)
    requires
        r.to_multiset() == s.to_multiset(),
    ensures
        count_unread(r) == count_unread(s),
    decreases s.len(),
{
    broadcast use vstd::seq_lib::group_to_multiset_ensures;

    vstd::seq_lib::to_multiset_len(r);
    vstd::seq_lib::to_multiset_len(s);
    if s.len() == 0 {
        assert(r.len() == 0);
    } else {
        let x = s.last();
        let d = s.drop_last();
        assert(d.push(x) =~= s);
        assert(s.to_multiset().count(x) > 0);
        assert(r.contains(x));
        let j = choose|j: int| 0 <= j < r.len() && r[j] == x;
        assert(r.remove(j).to_multiset() =~= d.to_multiset());
        lemma_unread_same_entries(r.remove(j), d);
        lemma_unread_remove(r, j);
    }
}

/// What [`NotificationCenter::list`] returns reorders the collected
/// notifications and loses or adds none: it holds each as often as the
/// center does, and so as many unread ones as
/// [`NotificationCenter::unread_count`] counts.
pub proof fn lemma_list_is_reordering(s: Seq<Notification>, r: Seq<Notification>)
    requires
        forall|t: u64| #[trigger] stamped(r, t) == stamped(s, t),
    ensures
        r.to_multiset() == s.to_multiset(),
        r.len() == s.len(),
        count_unread(r) == count_unread(s),
{
    broadcast use vstd::seq_lib::group_to_multiset_ensures;

    assert forall|x: Notification| r.to_multiset().count(x) == s.to_multiset().count(x) by {
        let p = |y: Notification| y.created_at == x.created_at;
        lemma_filter_count(r, p, x);
        lemma_filter_count(s, p, x);
        assert(stamped(r, x.created_at) == stamped(s, x.created_at));
    }
    assert(r.to_multiset() =~= s.to_multiset());
    vstd::seq_lib::to_multiset_len(r);
    vstd::seq_lib::to_multiset_len(s);
    lemma_unread_same_entries(r, s);
}

/// The listing order is fully determined: two lists, each newest first,
/// that hold the same entries for every timestamp in the same order, are
/// the same list. So [`NotificationCenter::list`] gives one answer for a
/// given content.
pub proof fn lemma_listing_unique(r1: Seq<Notification>, r2: Seq<Notification>)
    requires
        newest_first(r1),
        newest_first(r2),
        forall|t: u64| #[trigger] stamped(r1, t) == stamped(r2, t),
    ensures
        r1 == r2,
    decreases r1.len(),
{
    lemma_list_is_reordering(r2, r1);
    if r1.len() > 0 {
        let t1 = r1[0].created_at;
        let t2 = r2[0].created_at;
        let a = r1.drop_first();
        let b = r2.drop_first();
        assert(r1 =~= seq![r1[0]] + a);
        assert(r2 =~= seq![r2[0]] + b);
        a.lemma_filter_prepend(r1[0], |y: Notification| y.created_at == t1);
        b.lemma_filter_prepend(r2[0], |y: Notification| y.created_at == t2);
        a.lemma_filter_prepend(r1[0], |y: Notification| y.created_at == t2);
        b.lemma_filter_prepend(r2[0], |y: Notification| y.created_at == t1);
        assert(t1 == t2) by {
            if t1 != t2 {
                let f = |y: Notification| y.created_at == t1;
                let g = |y: Notification| y.created_at == t2;
                assert(stamped(r1, t1).len() > 0);
                assert(stamped(r2, t1) == b.filter(f));
                assert(b.filter(f).len() > 0);
                b.lemma_filter_pred(f, 0);
                b.lemma_filter_contains_rev(f, b.filter(f)[0]);
                assert(b.filter(f).contains(b.filter(f)[0]));
                let i = choose|i: int| 0 <= i < b.len() && b[i] == b.filter(f)[0];
                assert(r2[i + 1] == b[i]);
                assert(stamped(r1, t2) == a.filter(g));
                assert(a.filter(g).len() > 0);
                a.lemma_filter_pred(g, 0);
                a.lemma_filter_contains_rev(g, a.filter(g)[0]);
                assert(a.filter(g).contains(a.filter(g)[0]));
                let k = choose|k: int| 0 <= k < a.len() && a[k] == a.filter(g)[0];
                assert(r1[k + 1] == a[k]);
            }
        }
        assert(stamped(r1, t1)[0] == r1[0]);
        assert(stamped(r2, t1)[0] == r2[0]);
        assert(newest_first(a)) by {
            assert forall|i: int, j: int| 0 <= i < j < a.len() implies a[i].created_at >= a[j].created_at by {
                assert(a[i] == r1[i + 1] && a[j] == r1[j + 1]);
            }
        }
        assert(newest_first(b)) by {
            assert forall|i: int, j: int| 0 <= i < j < b.len() implies b[i].created_at >= b[j].created_at by {
                assert(b[i] == r2[i + 1] && b[j] == r2[j + 1]);
            }
        }
        assert forall|t: u64| #[trigger] stamped(a, t) == stamped(b, t) by {
            let f = |y: Notification| y.created_at == t;
            a.lemma_filter_prepend(r1[0], f);
            b.lemma_filter_prepend(r2[0], f);
            assert(stamped(r1, t) == stamped(r2, t));
            if t == t1 {
                assert(stamped(a, t) =~= stamped(r1, t).drop_first());
                assert(stamped(b, t) =~= stamped(r2, t).drop_first());
            }
        }
        lemma_listing_unique(a, b);
        assert(r1 =~= r2);
    }
}

/// `n` marked read.
pub open spec fn read_copy(n: Notification) -> Notification {
    Notification { read: true, ..n }
}

/// After [`NotificationCenter::mark_all_read`], none is unread and the
/// listing is the listing from before with every entry marked read, in the
/// same order: `s` and `l` are the entries and a listing of them before,
/// `s2` and `l2` after.
pub proof fn lemma_mark_all_read_listing(
    s: Seq<Notification>,
    l: Seq<Notification>,
    s2: Seq<Notification>,
    l2: Seq<Notification>,
)
    requires
        newest_first(l),
        forall|t: u64| #[trigger] stamped(l, t) == stamped(s, t),
        s2.len() == s.len(),
        forall|i: int| 0 <= i < s.len() ==> #[trigger] s2[i] == read_copy(s[i]),
        newest_first(l2),
        forall|t: u64| #[trigger] stamped(l2, t) == stamped(s2, t),
    ensures
        count_unread(s2) == 0,
        count_unread(l2) == 0,
        l2 == l.map_values(|n: Notification| read_copy(n)),
{
    assert(s2 =~= s.map_values(|n: Notification| read_copy(n)));
    let m = l.map_values(|n: Notification| read_copy(n));
    assert(newest_first(m)) by {
        assert forall|i: int, j: int| 0 <= i < j < m.len() implies m[i].created_at >= m[j].created_at by {
            assert(l[i].created_at >= l[j].created_at);
        }
    }
    assert forall|t: u64| #[trigger] stamped(m, t) == stamped(s2, t) by {
        lemma_filter_map_read(l, t);
        lemma_filter_map_read(s, t);
        assert(stamped(l, t) == stamped(s, t));
    }
    lemma_listing_unique(l2, m);
    lemma_all_read(s2);
    lemma_list_is_reordering(s2, l2);
}

/// Marking entries read keeps their timestamps: the stamp-`t` entries of
/// the marked list are the marked stamp-`t` entries.
proof fn lemma_filter_map_read(s: Seq<Notification>, t: u64)
    ensures
        stamped(s.map_values(|n: Notification| read_copy(n)), t) == stamped(s, t).map_values(
            |n: Notification| read_copy(n),
        ),
    decreases s.len(),
{
    let f = |n: Notification| read_copy(n);
    let p = |y: Notification| y.created_at == t;
    if s.len() == 0 {
        s.lemma_filter_len(p);
        s.map_values(f).lemma_filter_len(p);
        assert(stamped(s.map_values(f), t) =~= stamped(s, t).map_values(f));
    } else {
        let d = s.drop_last();
        lemma_filter_map_read(d, t);
        assert(d.push(s.last()) =~= s);
        assert(d.map_values(f).push(f(s.last())) =~= s.map_values(f));
        d.lemma_filter_push(s.last(), p);
        d.map_values(f).lemma_filter_push(f(s.last()), p);
        if p(s.last()) {
            assert(d.filter(p).push(s.last()).map_values(f) =~= d.filter(p).map_values(f).push(f(s.last())));
        }
    }
}

proof fn lemma_all_read(s: Seq<Notification>)
    requires
        forall|i: int| 0 <= i < s.len() ==> (#[trigger] s[i]).read,
    ensures
        count_unread(s) == 0,
    decreases s.len(),
{
    if s.len() > 0 {
        lemma_all_read(s.drop_last());
    }
}

/// `n` is the unread alert with these fields, stamped `now`.
pub open spec fn is_alert(
    n: Notification,
    key: Seq<char>,
    title: Seq<char>,
    body: Seq<char>,
    severity: Severity,
    category: Seq<char>,
    now: int,
) -> bool {
    &&& n.key@ == key
    &&& n.title@ == title
    &&& n.body@ == body
    &&& n.severity == severity
    &&& n.category@ == category
    &&& n.created_at == epoch_secs(now)
    &&& !n.read
}

fn keyed(prefix: &str, id: i64) -> (r: String)
    ensures
        r@ == prefix@ + int_text(id as int),
{
    let mut k = prefix.to_owned();
    let digits = int_to_string(id);
    k.append(digits.as_str());
    k
}

fn suffixed(name: &str, suffix: &str) -> (r: String)
    ensures
        r@ == name@ + suffix@,
{
    let mut b = name.to_owned();
    b.append(suffix);
    b
}

/// Rule: structure fuel. Critical once empty, Warning within `warn_within` of
/// expiry, otherwise nothing. The key collapses repeated ticks for one
/// structure into a single entry.
pub fn fuel_alert(
    structure_id: i64,
    structure_name: &str,
    fuel_expires_at: i128,
    now: i128,
    warn_within: u128,
) -> (r: Option<Notification>)
    requires
        representable(now as int),
        representable(fuel_expires_at as int),
    ensures
        fuel_expires_at <= now ==> r is Some && is_alert(
            r->0,
            "fuel:"@ + int_text(structure_id as int),
            "Structure out of fuel"@,
            structure_name@ + " has run out of fuel."@,
            Severity::Critical,
            "fuel"@,
            now as int,
        ),
        fuel_expires_at > now && fuel_expires_at - now <= warn_within ==> r is Some && is_alert(
            r->0,
            "fuel:"@ + int_text(structure_id as int),
            "Structure fuel low"@,
            structure_name@ + " is low on fuel."@,
            Severity::Warning,
            "fuel"@,
            now as int,
        ),
        fuel_expires_at > now && fuel_expires_at - now > warn_within ==> r is None,
{
    let key = keyed("fuel:", structure_id);
    if fuel_expires_at <= now {
        let body = suffixed(structure_name, " has run out of fuel.");
        Some(
            Notification::new(
                key.as_str(),
                "Structure out of fuel",
                body.as_str(),
                Severity::Critical,
                "fuel",
                now,
            ),
        )
    } else if ((fuel_expires_at - now) as u128) <= warn_within {
        let body = suffixed(structure_name, " is low on fuel.");
        Some(
            Notification::new(
                key.as_str(),
                "Structure fuel low",
                body.as_str(),
                Severity::Warning,
                "fuel",
                now,
            ),
        )
    } else {
        None
    }
}

/// Rule: skill queue. Warning if empty, Info if the last skill finishes within
/// `warn_within` (or already has), otherwise nothing.
pub fn skill_queue_alert(
    character_id: i64,
    character_name: &str,
    queue_finish: Option<i128>,
    now: i128,
    warn_within: u128,
) -> (r: Option<Notification>)
    requires
        representable(now as int),
        queue_finish is Some ==> representable(queue_finish->0 as int),
    ensures
        queue_finish is None ==> r is Some && is_alert(
            r->0,
            "skillqueue:"@ + int_text(character_id as int),
            "Skill queue empty"@,
            character_name@ + " has no skills training."@,
            Severity::Warning,
            "skills"@,
            now as int,
        ),
        queue_finish is Some && (queue_finish->0 <= now || queue_finish->0 - now <= warn_within)
            ==> r is Some && is_alert(
            r->0,
            "skillqueue:"@ + int_text(character_id as int),
            "Skill queue ending soon"@,
            character_name@ + "'s skill queue is almost empty."@,
            Severity::Info,
            "skills"@,
            now as int,
        ),
        queue_finish is Some && queue_finish->0 > now && queue_finish->0 - now > warn_within
            ==> r is None,
{
    let key = keyed("skillqueue:", character_id);
    match queue_finish {
        None => {
            let body = suffixed(character_name, " has no skills training.");
            Some(
                Notification::new(
                    key.as_str(),
                    "Skill queue empty",
                    body.as_str(),
                    Severity::Warning,
                    "skills",
                    now,
                ),
            )
        },
        Some(finish) => {
            let left: u128 = if finish > now {
                (finish - now) as u128
            } else {
                0
            };
            if left <= warn_within {
                let body = suffixed(character_name, "'s skill queue is almost empty.");
                Some(
                    Notification::new(
                        key.as_str(),
                        "Skill queue ending soon",
                        body.as_str(),
                        Severity::Info,
                        "skills",
                        now,
                    ),
                )
            } else {
                None
            }
        },
    }
}

/// Pushing the same notification twice in a row collapses the second push:
/// it reports `Duplicate`, asks for no interrupt, and leaves the center as
/// the first push left it.
pub proof fn lemma_repush_is_duplicate(
    before: NotificationCenter,
    mid: NotificationCenter,
    after: NotificationCenter,
    n: Notification,
    r1: PushResult,
    r2: PushResult,
)
    requires
        before.wf(),
        push_post(before, mid, n, r1),
        push_post(mid, after, n, r2),
    ensures
        r2 == (PushResult { status: PushStatus::Duplicate, interrupt: false }),
        after.entries() == mid.entries(),
{
    let s = before.entries();
    let k = n.key@;
    lemma_key_pos_props(s, k);
    let m = mid.entries();
    lemma_key_pos_props(m, k);
    let i = key_pos(s, k);
    if i == s.len() {
        assert(m[s.len() as int] == n);
        assert(has_key(m, k));
        lemma_key_pos_is_unique(m, k, s.len() as int);
    } else {
        assert(m[i as int].key@ == k);
        lemma_key_pos_is_unique(m, k, i as int);
    }
}

proof fn lemma_key_pos_is_unique(s: Seq<Notification>, k: Seq<char>, i: int)
    requires
        keys_distinct(s),
        0 <= i < s.len(),
        s[i].key@ == k,
    ensures
        key_pos(s, k) == i,
{
    assert forall|j: int| 0 <= j < i implies s[j].key@ != k by {
        assert(s[j].key@ != s[i].key@);
    }
    lemma_key_pos_is(s, k, i);
}

/// The state change of [`NotificationCenter::push`], as its `ensures` states it.
pub open spec fn push_post(
    old_c: NotificationCenter,
    new_c: NotificationCenter,
    n: Notification,
    r: PushResult,
) -> bool {
    let s = old_c.entries();
    let i = key_pos(s, n.key@);
    let meets = n.severity.level() >= old_c.threshold().level();
    &&& new_c.wf()
    &&& new_c.threshold() == old_c.threshold()
    &&& if i == s.len() {
        &&& new_c.entries() == s.push(n)
        &&& r == (PushResult { status: PushStatus::Created, interrupt: meets })
    } else if same_content(s[i as int], n) {
        &&& new_c.entries() == s
        &&& r == (PushResult { status: PushStatus::Duplicate, interrupt: false })
    } else {
        &&& new_c.entries() == s.update(i as int, refreshed(s[i as int], n))
        &&& r == (PushResult { status: PushStatus::Updated, interrupt: meets })
    }
}

/// The unread count never exceeds the number of entries, and marking every
/// entry read brings it to zero.
pub proof fn lemma_unread_bounds(s: Seq<Notification>)
    ensures
        count_unread(s) <= s.len(),
        (forall|i: int| 0 <= i < s.len() ==> #[trigger] s[i].read) ==> count_unread(s) == 0,
    decreases s.len(),
{
    if s.len() > 0 {
        lemma_unread_bounds(s.drop_last());
        if forall|i: int| 0 <= i < s.len() ==> #[trigger] s[i].read {
            assert forall|i: int| 0 <= i < s.drop_last().len() implies #[trigger] s.drop_last()[i].read by {
                assert(s.drop_last()[i] == s[i]);
            }
        }
    }
}

/// After a push the center holds exactly one entry with the pushed key, and a
/// push interrupts only when it changed something at or above the threshold.
pub proof fn lemma_push_keeps_one_entry_per_key(
    before: NotificationCenter,
    after: NotificationCenter,
    n: Notification,
    r: PushResult,
)
    requires
        before.wf(),
        push_post(before, after, n, r),
    ensures
        has_key(after.entries(), n.key@),
        forall|i: int, j: int|
            0 <= i < j < after.entries().len() ==> after.entries()[i].key@ != after.entries()[j].key@,
        r.interrupt ==> r.status != PushStatus::Duplicate && n.severity.level()
            >= before.threshold().level(),
{
    let s = before.entries();
    lemma_key_pos_props(s, n.key@);
    let i = key_pos(s, n.key@);
    if i == s.len() {
        assert(after.entries()[s.len() as int].key@ == n.key@);
    } else {
        assert(after.entries()[i as int].key@ == n.key@);
    }
}

impl Default for NotificationCenter {
    /// Collect everything; interrupt on Warning and above.
    fn default() -> (r: NotificationCenter)
        ensures
            r.wf(),
            r.entries() == Seq::<Notification>::empty(),
            r.threshold() == Severity::Warning,
    {
        Self::new(Severity::Warning)
    }
}

/// Setting the interrupt threshold to `m` (`c0` before, `c1` after) keeps
/// what was collected, so the listing too (see [`lemma_listing_unique`]);
/// and the next push of a notification with a new key (`c2` after it,
/// answer `r`) collects it and interrupts exactly when its severity reaches
/// `m`.
pub proof fn lemma_threshold_governs_next_push(
    c0: NotificationCenter,
    c1: NotificationCenter,
    m: Severity,
    n: Notification,
    c2: NotificationCenter,
    r: PushResult,
)
    requires
        c1.entries() == c0.entries(),
        c1.threshold() == m,
        push_post(c1, c2, n, r),
        !has_key(c0.entries(), n.key@),
    ensures
        c2.entries() == c0.entries().push(n),
        r.status == PushStatus::Created,
        r.interrupt == (n.severity.level() >= m.level()),
{
    lemma_key_pos_props(c1.entries(), n.key@);
}

/// Pushing a notification under a key the center already holds, at index
/// `i` (`c1` before, `c2` after, answer `r`): when its title, body and
/// severity all equal the held entry's, the push is a `Duplicate` that
/// interrupts nothing and changes nothing; when any of them differs, it is
/// an `Updated` push that interrupts exactly when the severity reaches the
/// threshold, and the entry takes the pushed title, body, severity,
/// category and time, keeps its key and place, and is unread again, while
/// every other entry stays as it was.
pub proof fn lemma_repush_of_held_key(
    c1: NotificationCenter,
    c2: NotificationCenter,
    n: Notification,
    r: PushResult,
    i: int,
)
    requires
        c1.wf(),
        push_post(c1, c2, n, r),
        0 <= i < c1.entries().len(),
        c1.entries()[i].key@ == n.key@,
    ensures
        ({
            let e = c1.entries()[i];
            if e.title@ == n.title@ && e.body@ == n.body@ && e.severity == n.severity {
                &&& r.status == PushStatus::Duplicate
                &&& !r.interrupt
                &&& c2.entries() == c1.entries()
            } else {
                &&& r.status == PushStatus::Updated
                &&& r.interrupt == (n.severity.level() >= c1.threshold().level())
                &&& c2.entries().len() == c1.entries().len()
                &&& c2.entries()[i].key == e.key
                &&& c2.entries()[i].title == n.title
                &&& c2.entries()[i].body == n.body
                &&& c2.entries()[i].severity == n.severity
                &&& c2.entries()[i].category == n.category
                &&& c2.entries()[i].created_at == n.created_at
                &&& !c2.entries()[i].read
                &&& forall|j: int| 0 <= j < c1.entries().len() && j != i ==> #[trigger] c2.entries()[j]
                    == c1.entries()[j]
            }
        }),
{
    lemma_key_pos_is_unique(c1.entries(), n.key@, i);
}

} // verus!
