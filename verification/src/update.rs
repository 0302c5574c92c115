//! Update check: compare the running version with the newest published
//! release and say when a newer one exists. Notify only: nothing is
//! downloaded or installed.

use vstd::prelude::*;
use crate::text::{
    parse_u64, parse_u64_spec, split_on, split_bounds, trim, trim_bounds, chars_of, string_from_chars,
};

verus! {

/// The outcome of an update check, shown to the user.
#[derive(Debug, Clone, PartialEq)]
pub struct UpdateStatus {
    pub current: String,
    pub latest: String,
    pub update_available: bool,
    /// Where to get it (release page URL), when known.
    pub url: String,
}

/// One published release (the fields read from a GitHub-releases listing).
#[derive(Debug, Clone, PartialEq)]
pub struct Release {
    pub tag_name: Option<String>,
    pub name: Option<String>,
    pub html_url: Option<String>,
    pub prerelease: bool,
    pub draft: bool,
}

/// `s` without its leading `v`s.
pub open spec fn strip_vs(s: Seq<char>) -> Seq<char>
    decreases s.len(),
{
    if s.len() > 0 && s[0] == 'v' {
        strip_vs(s.drop_first())
    } else {
        s
    }
}

/// `s` up to its first `-` or `+` (pre-release or build suffix dropped).
pub open spec fn before_suffix(s: Seq<char>) -> Seq<char>
    decreases s.len(),
{
    if s.len() == 0 || s[0] == '-' || s[0] == '+' {
        seq![]
    } else {
        seq![s[0]] + before_suffix(s.drop_first())
    }
}

/// A version component: its number, 0 when it is not one.
pub open spec fn component(p: Seq<char>) -> u64 {
    match parse_u64_spec(p) {
        Some(n) => n,
        None => 0,
    }
}

/// The `(major, minor, patch)` a version string names: trimmed, leading `v`s
/// and any `-`/`+` suffix dropped, split on `.`; missing or unparseable
/// components are 0.
pub open spec fn semver_spec(v: Seq<char>) -> (u64, u64, u64) {
    let parts = split_on(before_suffix(strip_vs(trim(v))), '.');
    (
        component(parts[0]),
        if parts.len() > 1 {
            component(parts[1])
        } else {
            0
        },
        if parts.len() > 2 {
            component(parts[2])
        } else {
            0
        },
    )
}

/// `a` orders before `b` (lexicographically by major, minor, patch).
pub open spec fn version_lt(a: (u64, u64, u64), b: (u64, u64, u64)) -> bool {
    a.0 < b.0 || (a.0 == b.0 && (a.1 < b.1 || (a.1 == b.1 && a.2 < b.2)))
}

/// `latest` names a strictly newer version than `current`.
pub open spec fn is_newer_spec(current: Seq<char>, latest: Seq<char>) -> bool {
    version_lt(semver_spec(current), semver_spec(latest))
}

/// A release's version text: its tag, else its name, else empty.
pub open spec fn release_label(r: Release) -> Seq<char> {
    match r.tag_name {
        Some(t) => t@,
        None => match r.name {
            Some(n) => n@,
            None => seq![],
        },
    }
}

/// A release that is neither a draft nor a pre-release.
pub open spec fn is_stable(r: Release) -> bool {
    !r.draft && !r.prerelease
}

/// Among the first `n` releases, the index of the stable one with the
/// highest version; of equally high ones, the last.
pub open spec fn pick_spec(rs: Seq<Release>, n: int) -> Option<int>
    decreases n,
{
    if n <= 0 {
        None
    } else {
        let prev = pick_spec(rs, n - 1);
        if is_stable(rs[n - 1]) && match prev {
            None => true,
            Some(b) => !version_lt(semver_spec(release_label(rs[n - 1])), semver_spec(release_label(rs[b]))),
        } {
            Some(n - 1)
        } else {
            prev
        }
    }
}

/// The status an update check reports given the published releases: the
/// newest stable release's label and URL, and whether it is newer than
/// `current`; with no stable release, `current` itself and no update.
pub open spec fn status_spec(current: Seq<char>, rs: Seq<Release>) -> (Seq<char>, Seq<char>, bool, Seq<char>) {
    match pick_spec(rs, rs.len() as int) {
        None => (current, current, false, seq![]),
        Some(i) => (
            current,
            release_label(rs[i]),
            is_newer_spec(current, release_label(rs[i])),
            match rs[i].html_url {
                Some(u) => u@,
                None => seq![],
            },
        ),
    }
}

/// Index just past the leading `v`s of `s[a..b]`.
fn skip_vs(s: &Vec<char>, a: usize, b: usize) -> (r: usize)
    requires
        a <= b <= s.len(),
    ensures
        a <= r <= b,
        s@.subrange(r as int, b as int) == strip_vs(s@.subrange(a as int, b as int)),
{
    let mut x = a;
    while x < b && s[x] == 'v'
        invariant
            a <= x <= b <= s.len(),
            strip_vs(s@.subrange(a as int, b as int)) == strip_vs(s@.subrange(x as int, b as int)),
        decreases b - x,
    {
        assert(s@.subrange(x as int, b as int).drop_first() =~= s@.subrange(x + 1, b as int));
        x += 1;
    }
    x
}

proof fn lemma_before_suffix(s: Seq<char>, k: int)
    requires
        0 <= k <= s.len(),
        forall|i: int| 0 <= i < k ==> (#[trigger] s[i]) != '-' && s[i] != '+',
        k < s.len() ==> s[k] == '-' || s[k] == '+',
    ensures
        before_suffix(s) == s.take(k),
    decreases k,
{
    if k > 0 {
        let d = s.drop_first();
        assert forall|i: int| 0 <= i < k - 1 implies (#[trigger] d[i]) != '-' && d[i] != '+' by {
            assert(d[i] == s[i + 1]);
        }
        lemma_before_suffix(d, k - 1);
        assert(seq![s[0]] + d.take(k - 1) =~= s.take(k));
    } else {
        assert(s.take(0) =~= seq![]);
    }
}

/// End of `s[a..b]` before its first `-` or `+`.
fn suffix_start(s: &Vec<char>, a: usize, b: usize) -> (r: usize)
    requires
        a <= b <= s.len(),
    ensures
        a <= r <= b,
        s@.subrange(a as int, r as int) == before_suffix(s@.subrange(a as int, b as int)),
{
    let mut e = a;
    while e < b && s[e] != '-' && s[e] != '+'
        invariant
            a <= e <= b <= s.len(),
            forall|i: int| a <= i < e ==> (#[trigger] s@[i]) != '-' && s@[i] != '+',
        decreases b - e,
    {
        e += 1;
    }
    proof {
        let t = s@.subrange(a as int, b as int);
        assert forall|i: int| 0 <= i < e - a implies (#[trigger] t[i]) != '-' && t[i] != '+' by {
            assert(t[i] == s@[a + i]);
        }
        if e < b {
            assert(t[e - a] == s@[e as int]);
        }
        lemma_before_suffix(t, e - a);
        assert(t.take(e - a) =~= s@.subrange(a as int, e as int));
    }
    e
}

/// The number in `s[a..b]`, 0 when it is not one.
fn component_in(s: &Vec<char>, a: usize, b: usize) -> (n: u64)
    requires
        a <= b <= s.len(),
    ensures
        n == component(s@.subrange(a as int, b as int)),
{
    match parse_u64(s, a, b) {
        Some(n) => n,
        None => 0,
    }
}

/// Parses a `MAJOR.MINOR.PATCH` version, ignoring leading `v`s and any
/// pre-release or build suffix; missing or unparseable parts are 0.
pub fn parse_semver(v: &str) -> (r: (u64, u64, u64))
    ensures
        r == semver_spec(v@),
{
    let s = chars_of(v);
    assert(s@.subrange(0, s@.len() as int) =~= s@);
    let (ta, tb) = trim_bounds(&s, 0, s.len());
    let va = skip_vs(&s, ta, tb);
    let e = suffix_start(&s, va, tb);
    let parts = split_bounds(&s, va, e, '.');
    let (p0a, p0b) = parts[0];
    let major = component_in(&s, p0a, p0b);
    let minor = if parts.len() > 1 {
        let (p1a, p1b) = parts[1];
        component_in(&s, p1a, p1b)
    } else {
        0
    };
    let patch = if parts.len() > 2 {
        let (p2a, p2b) = parts[2];
        component_in(&s, p2a, p2b)
    } else {
        0
    };
    (major, minor, patch)
}

fn version_less(a: (u64, u64, u64), b: (u64, u64, u64)) -> (r: bool)
    ensures
        r == version_lt(a, b),
{
    a.0 < b.0 || (a.0 == b.0 && (a.1 < b.1 || (a.1 == b.1 && a.2 < b.2)))
}

/// Whether `latest` is a strictly newer version than `current`.
pub fn is_newer(current: &str, latest: &str) -> (r: bool)
    ensures
        r == is_newer_spec(current@, latest@),
{
    version_less(parse_semver(current), parse_semver(latest))
}

/// A release's version text: its tag, else its name, else empty.
fn label_of(r: &Release) -> (s: String)
    ensures
        s@ == release_label(*r),
{
    match &r.tag_name {
        Some(t) => t.clone(),
        None => match &r.name {
            Some(n) => n.clone(),
            None => String::new(),
        },
    }
}

/// The index of the newest stable release (the last of equally new ones).
fn pick_index(releases: &[Release]) -> (r: Option<usize>)
    ensures
        match r {
            Some(i) => pick_spec(releases@, releases@.len() as int) == Some(i as int) && i
                < releases@.len(),
            None => pick_spec(releases@, releases@.len() as int) is None,
        },
{
    let mut best: Option<usize> = None;
    let mut best_v: (u64, u64, u64) = (0, 0, 0);
    let mut k: usize = 0;
    while k < releases.len()
        invariant
            k <= releases@.len(),
            match best {
                Some(b) => pick_spec(releases@, k as int) == Some(b as int) && b < k && best_v
                    == semver_spec(release_label(releases@[b as int])),
                None => pick_spec(releases@, k as int) is None,
            },
        decreases releases@.len() - k,
    {
        let r = &releases[k];
        if !r.draft && !r.prerelease {
            let v = parse_semver(label_of(r).as_str());
            let take = match best {
                None => true,
                Some(_) => !version_less(v, best_v),
            };
            if take {
                best = Some(k);
                best_v = v;
            }
        }
        k += 1;
    }
    best
}

/// The newest release that is neither a draft nor a pre-release (the last
/// of equally new ones), if any.
pub fn pick_latest(releases: &[Release]) -> (r: Option<&Release>)
    ensures
        match r {
            Some(x) => exists|i: int|
                pick_spec(releases@, releases@.len() as int) == Some(i) && *x == releases@[i],
            None => pick_spec(releases@, releases@.len() as int) is None,
        },
{
    match pick_index(releases) {
        Some(i) => Some(&releases[i]),
        None => None,
    }
}

/// The status an update check reports for the running version `current`
/// and the published `releases` (see [`status_spec`]).
pub fn status_from_releases(current: &str, releases: &[Release]) -> (s: UpdateStatus)
    ensures
        (s.current@, s.latest@, s.update_available, s.url@) == status_spec(current@, releases@),
{
    let cur = chars_of(current);
    match pick_index(releases) {
        None => {
            let a = string_from_chars(&cur);
            let b = string_from_chars(&cur);
            UpdateStatus { current: a, latest: b, update_available: false, url: String::new() }
        },
        Some(i) => {
            let r = &releases[i];
            let tag = label_of(r);
            let url = match &r.html_url {
                Some(u) => u.clone(),
                None => String::new(),
            };
            let newer = is_newer(current, tag.as_str());
            UpdateStatus {
                current: string_from_chars(&cur),
                update_available: newer,
                latest: tag,
                url,
            }
        },
    }
}

/// `is_newer` is a strict order on versions: never true of a version and
/// itself, never true both ways, and transitive.
pub proof fn lemma_is_newer_strict_order(a: Seq<char>, b: Seq<char>, c: Seq<char>)
    ensures
        !is_newer_spec(a, a),
        is_newer_spec(a, b) ==> !is_newer_spec(b, a),
        is_newer_spec(a, b) && is_newer_spec(b, c) ==> is_newer_spec(a, c),
{
}

} // verus!
