//! Opt-in, anonymous usage telemetry.
//!
//! An event is a sanitized name plus small integer counts, nothing else: the
//! shape leaves no room for ISK, names, ids or free text. Nothing is recorded
//! unless the player has consented, and the pending batch is bounded.

use vstd::prelude::*;
use crate::text::{
    trim, trim_bounds, lowercase, str_to_lowercase, is_ascii_alnum, ascii_alnum, chars_of,
    str_eq, string_from_chars, seq_lt, lemma_seq_lt_order, str_lt, is_ascii_text, ascii_lower_seq,
};

verus! {

/// Largest count an event carries; larger ones are clamped to it.
pub const COUNT_CEILING: u32 = 100_000;

/// The counters of an event, by name, kept in name order with each name
/// once. Inserting a name again replaces its count.
#[derive(Debug, Clone, PartialEq)]
pub struct Counts {
    pairs: Vec<(String, u32)>,
}

/// The names of `s` strictly ascend (so each occurs once).
pub open spec fn names_ascending(s: Seq<(String, u32)>) -> bool {
    forall|i: int, j: int| 0 <= i < j < s.len() ==> seq_lt(#[trigger] s[i].0@, #[trigger] s[j].0@)
}

/// The map a list of `(name, count)` insertions leaves: a later insertion of
/// a name replaces an earlier one.
pub open spec fn pair_map(s: Seq<(String, u32)>) -> Map<Seq<char>, u32>
    decreases s.len(),
{
    if s.len() == 0 {
        Map::empty()
    } else {
        pair_map(s.drop_last()).insert(s.last().0@, s.last().1)
    }
}

proof fn lemma_pair_map_last(s: Seq<(String, u32)>, k: Seq<char>, j: int)
    requires
        0 <= j < s.len(),
        s[j].0@ == k,
        forall|i: int| j < i < s.len() ==> (#[trigger] s[i]).0@ != k,
    ensures
        pair_map(s).contains_key(k),
        pair_map(s)[k] == s[j].1,
    decreases s.len(),
{
    if j < s.len() - 1 {
        let d = s.drop_last();
        assert forall|i: int| j < i < d.len() implies (#[trigger] d[i]).0@ != k by {
            assert(d[i] == s[i]);
        }
        lemma_pair_map_last(d, k, j);
    }
}

proof fn lemma_pair_map_absent(s: Seq<(String, u32)>, k: Seq<char>)
    requires
        forall|i: int| 0 <= i < s.len() ==> (#[trigger] s[i]).0@ != k,
    ensures
        !pair_map(s).contains_key(k),
    decreases s.len(),
{
    if s.len() > 0 {
        let d = s.drop_last();
        assert forall|i: int| 0 <= i < d.len() implies (#[trigger] d[i]).0@ != k by {
            assert(d[i] == s[i]);
        }
        lemma_pair_map_absent(d, k);
    }
}

/// In a list of ascending names, the map holds a name exactly when the list
/// does, with the count listed beside it.
proof fn lemma_ascending_lookup(s: Seq<(String, u32)>, k: Seq<char>)
    requires
        names_ascending(s),
    ensures
        pair_map(s).contains_key(k) <==> exists|j: int| 0 <= j < s.len() && (#[trigger] s[j]).0@ == k,
        forall|j: int| 0 <= j < s.len() && (#[trigger] s[j]).0@ == k ==> pair_map(s)[k] == s[j].1,
{
    assert forall|j: int| 0 <= j < s.len() && (#[trigger] s[j]).0@ == k implies pair_map(s).contains_key(k)
        && pair_map(s)[k] == s[j].1 by {
        assert forall|i: int| j < i < s.len() implies (#[trigger] s[i]).0@ != k by {
            assert(seq_lt(s[j].0@, s[i].0@));
            lemma_seq_lt_order(k, k, k);
        }
        lemma_pair_map_last(s, k, j);
    }
    if !exists|j: int| 0 <= j < s.len() && (#[trigger] s[j]).0@ == k {
        lemma_pair_map_absent(s, k);
    }
}

impl Counts {
    /// The names are held in ascending order, each once.
    pub closed spec fn wf(&self) -> bool {
        names_ascending(self.pairs@)
    }

    /// The counts by name.
    pub closed spec fn view(&self) -> Map<Seq<char>, u32> {
        pair_map(self.pairs@)
    }

    /// No counts.
    pub fn new() -> (c: Counts)
        ensures
            c.wf(),
            c.view() == Map::<Seq<char>, u32>::empty(),
    {
        Counts { pairs: Vec::new() }
    }

    /// Sets the count of `name` to `value`.
    pub fn insert(&mut self, name: String, value: u32)
        requires
            old(self).wf(),
        ensures
            final(self).wf(),
            final(self).view() == old(self).view().insert(name@, value),
    {
        let ghost s = self.pairs@;
        let mut pairs: Vec<(String, u32)> = Vec::new();
        std::mem::swap(&mut pairs, &mut self.pairs);
        assert(pairs@ == s);
        let mut i: usize = 0;
        while i < pairs.len() && str_lt(pairs[i].0.as_str(), name.as_str())
            invariant
                pairs@ == s,
                i <= s.len(),
                forall|m: int| 0 <= m < i ==> seq_lt((#[trigger] s[m]).0@, name@),
            decreases s.len() - i,
        {
            i += 1;
        }
        let ghost k = name@;
        let ghost m0 = pair_map(s).insert(k, value);
        if i < pairs.len() && str_eq(pairs[i].0.as_str(), name.as_str()) {
            pairs.set(i, (name, value));
            let ghost t = pairs@;
            proof {
                assert(t =~= s.update(i as int, t[i as int]));
                assert(names_ascending(t)) by {
                    assert forall|a: int, b: int| 0 <= a < b < t.len() implies seq_lt(#[trigger] t[a].0@, #[trigger] t[b].0@) by {
                        assert(seq_lt(s[a].0@, s[b].0@));
                    }
                }
                assert forall|q: Seq<char>| #[trigger] pair_map(t).contains_key(q) == m0.contains_key(q)
                    && (pair_map(t).contains_key(q) ==> pair_map(t)[q] == m0[q]) by {
                    lemma_ascending_lookup(s, q);
                    lemma_ascending_lookup(t, q);
                    if q != k {
                        if exists|j: int| 0 <= j < s.len() && (#[trigger] s[j]).0@ == q {
                            let j = choose|j: int| 0 <= j < s.len() && (#[trigger] s[j]).0@ == q;
                            assert(t[j] == s[j]);
                        }
                        if exists|j: int| 0 <= j < t.len() && (#[trigger] t[j]).0@ == q {
                            let j = choose|j: int| 0 <= j < t.len() && (#[trigger] t[j]).0@ == q;
                            assert(t[j] == s[j]);
                        }
                    } else {
                        assert(t[i as int].0@ == q);
                    }
                }
                assert(pair_map(t) =~= m0);
            }
        } else {
            pairs.insert(i, (name, value));
            let ghost t = pairs@;
            proof {
                assert(t[i as int].0@ == k);
                assert forall|j: int| 0 <= j < i implies t[j] == s[j] by {}
                assert forall|j: int| i < j < t.len() implies t[j] == s[j - 1] by {}
                assert forall|j: int| i <= j < s.len() implies seq_lt(k, #[trigger] s[j].0@) by {
                    lemma_seq_lt_order(k, s[i as int].0@, s[j].0@);
                    assert(s[i as int].0@ == s[j].0@ || seq_lt(s[i as int].0@, s[j].0@));
                }
                assert(names_ascending(t)) by {
                    assert forall|a: int, b: int| 0 <= a < b < t.len() implies seq_lt(#[trigger] t[a].0@, #[trigger] t[b].0@) by {
                        if a < i && b < i {
                            assert(seq_lt(s[a].0@, s[b].0@));
                        } else if a < i && b == i {
                        } else if a < i {
                            lemma_seq_lt_order(s[a].0@, k, s[b - 1].0@);
                        } else if a == i {
                        } else {
                            assert(seq_lt(s[a - 1].0@, s[b - 1].0@));
                        }
                    }
                }
                assert forall|q: Seq<char>| #[trigger] pair_map(t).contains_key(q) == m0.contains_key(q)
                    && (pair_map(t).contains_key(q) ==> pair_map(t)[q] == m0[q]) by {
                    lemma_ascending_lookup(s, q);
                    lemma_ascending_lookup(t, q);
                    if q != k {
                        if exists|j: int| 0 <= j < s.len() && (#[trigger] s[j]).0@ == q {
                            let j = choose|j: int| 0 <= j < s.len() && (#[trigger] s[j]).0@ == q;
                            if j < i {
                                assert(t[j] == s[j]);
                            } else {
                                assert(t[j + 1] == s[j]);
                            }
                        }
                        if exists|j: int| 0 <= j < t.len() && (#[trigger] t[j]).0@ == q {
                            let j = choose|j: int| 0 <= j < t.len() && (#[trigger] t[j]).0@ == q;
                            if j < i {
                                assert(t[j] == s[j]);
                            } else {
                                assert(t[j] == s[j - 1]);
                            }
                        }
                    }
                }
                assert(pair_map(t) =~= m0);
            }
        }
        self.pairs = pairs;
    }

    /// The count of `name`, if it has one.
    pub fn get(&self, name: &str) -> (r: Option<&u32>)
        ensures
            match r {
                Some(v) => self.view().contains_key(name@) && self.view()[name@] == *v,
                None => !self.view().contains_key(name@),
            },
    {
        let mut i = self.pairs.len();
        while i > 0
            invariant
                i <= self.pairs@.len(),
                forall|m: int| i <= m < self.pairs@.len() ==> (#[trigger] self.pairs@[m]).0@ != name@,
            decreases i,
        {
            if str_eq(self.pairs[i - 1].0.as_str(), name) {
                proof {
                    lemma_pair_map_last(self.pairs@, name@, i - 1);
                }
                return Some(&self.pairs[i - 1].1);
            }
            i -= 1;
        }
        proof {
            lemma_pair_map_absent(self.pairs@, name@);
        }
        None
    }

    /// The counts in name order, each name once.
    pub fn entries(&self) -> (r: &Vec<(String, u32)>)
        requires
            self.wf(),
        ensures
            pair_map(r@) == self.view(),
            names_ascending(r@),
    {
        &self.pairs
    }
}

/// One anonymous usage event: a sanitized name and bounded counters.
#[derive(Debug, Clone, PartialEq)]
pub struct TelemetryEvent {
    /// A code-defined event name, lowercased, in `[a-z0-9_]` (up to what
    /// lowercasing leaves of non-ASCII text).
    pub name: String,
    /// Small non-negative counters.
    pub counts: Counts,
}

/// `t` with every character other than an ASCII letter, digit or `_`
/// replaced by `_`.
pub open spec fn sanitize(t: Seq<char>) -> Seq<char> {
    t.map_values(|c: char| if is_ascii_alnum(c) || c == '_' { c } else { '_' })
}

/// A name as events carry it: trimmed, lowercased, then sanitized.
pub open spec fn clean_spec(s: Seq<char>) -> Seq<char> {
    sanitize(lowercase(trim(s)))
}

/// The counters an event built from `counts` holds: each name cleaned, each
/// value clamped to [`COUNT_CEILING`], later names replacing earlier ones.
pub open spec fn counts_spec(counts: Seq<(&str, u32)>) -> Map<Seq<char>, u32>
    decreases counts.len(),
{
    if counts.len() == 0 {
        Map::empty()
    } else {
        counts_spec(counts.drop_last()).insert(
            clean_spec(counts.last().0@),
            if counts.last().1 > COUNT_CEILING {
                COUNT_CEILING
            } else {
                counts.last().1
            },
        )
    }
}

/// `lowered` with every character other than an ASCII letter, digit or `_`
/// replaced by `_`.
pub fn sanitize_lowered(lowered: &str) -> (r: String)
    ensures
        r@ == sanitize(lowered@),
{
    let s = chars_of(lowered);
    let mut out: Vec<char> = Vec::new();
    let mut k: usize = 0;
    while k < s.len()
        invariant
            k <= s@.len(),
            s@ == lowered@,
            out@ == sanitize(s@.take(k as int)),
        decreases s@.len() - k,
    {
        let c = s[k];
        out.push(if ascii_alnum(c) || c == '_' { c } else { '_' });
        assert(sanitize(s@.take(k + 1)) =~= sanitize(s@.take(k as int)).push(
            if is_ascii_alnum(c) || c == '_' { c } else { '_' },
        ));
        k += 1;
    }
    assert(s@.take(s@.len() as int) =~= s@);
    string_from_chars(&out)
}

/// A name made safe to carry: trimmed, lowercased, sanitized.
fn clean(s: &str) -> (r: String)
    ensures
        r@ == clean_spec(s@),
        is_ascii_text(trim(s@)) ==> lowercase(trim(s@)) == ascii_lower_seq(trim(s@)),
{
    let v = chars_of(s);
    let (a, b) = trim_bounds(&v, 0, v.len());
    assert(v@.subrange(0, v@.len() as int) =~= v@);
    let mut t: Vec<char> = Vec::new();
    let mut k = a;
    while k < b
        invariant
            a <= k <= b <= v@.len(),
            t@ == v@.subrange(a as int, k as int),
        decreases b - k,
    {
        t.push(v[k]);
        assert(v@.subrange(a as int, k + 1) =~= v@.subrange(a as int, k as int).push(v@[k as int]));
        k += 1;
    }
    let trimmed = string_from_chars(&t);
    let lowered = str_to_lowercase(trimmed.as_str());
    sanitize_lowered(lowered.as_str())
}

impl TelemetryEvent {
    /// Builds an event: the name trimmed, lowercased and reduced to
    /// `[a-z0-9_]` (other characters become `_`), each counter's name the
    /// same way, and each count clamped to [`COUNT_CEILING`].
    ///
    /// On ASCII names the lowercasing is the ASCII one.
    pub fn new(name: &str, counts: &[(&str, u32)]) -> (e: TelemetryEvent)
        ensures
            e.name@ == clean_spec(name@),
            e.counts.wf(),
            e.counts.view() == counts_spec(counts@),
            is_ascii_text(trim(name@)) ==> lowercase(trim(name@)) == ascii_lower_seq(trim(name@)),
            forall|i: int|
                0 <= i < counts@.len() && is_ascii_text(trim((#[trigger] counts@[i]).0@)) ==> lowercase(
                    trim(counts@[i].0@),
                ) == ascii_lower_seq(trim(counts@[i].0@)),
    {
        let mut c = Counts::new();
        let mut k: usize = 0;
        while k < counts.len()
            invariant
                k <= counts@.len(),
                c.wf(),
                c.view() == counts_spec(counts@.take(k as int)),
                forall|i: int|
                    0 <= i < k && is_ascii_text(trim((#[trigger] counts@[i]).0@)) ==> lowercase(
                        trim(counts@[i].0@),
                    ) == ascii_lower_seq(trim(counts@[i].0@)),
            decreases counts@.len() - k,
        {
            let (key, v) = counts[k];
            let clamped: u32 = if v > COUNT_CEILING { COUNT_CEILING } else { v };
            c.insert(clean(key), clamped);
            assert(counts@.take(k + 1).drop_last() =~= counts@.take(k as int));
            k += 1;
        }
        assert(counts@.take(counts@.len() as int) =~= counts@);
        TelemetryEvent { name: clean(name), counts: c }
    }
}

/// An event cannot carry free text or large numbers: every character of its
/// name and of each counter's name is an ASCII letter, digit or `_`, and
/// no count exceeds the ceiling.
pub proof fn lemma_event_shape_is_safe(name: Seq<char>, counts: Seq<(&str, u32)>)
    ensures
        forall|i: int|
            0 <= i < clean_spec(name).len() ==> is_ascii_alnum(#[trigger] clean_spec(name)[i]) || clean_spec(
                name,
            )[i] == '_',
        forall|k: Seq<char>|
            #[trigger] counts_spec(counts).contains_key(k) ==> counts_spec(counts)[k] <= COUNT_CEILING && forall|i: int|
                0 <= i < k.len() ==> is_ascii_alnum(#[trigger] k[i]) || k[i] == '_',
    decreases counts.len(),
{
    if counts.len() > 0 {
        let d = counts.drop_last();
        let key = clean_spec(counts.last().0@);
        lemma_event_shape_is_safe(name, d);
        lemma_event_shape_is_safe(counts.last().0@, d);
        assert forall|k: Seq<char>| #[trigger] counts_spec(counts).contains_key(k) implies counts_spec(counts)[k]
            <= COUNT_CEILING && forall|i: int| 0 <= i < k.len() ==> is_ascii_alnum(#[trigger] k[i]) || k[i] == '_' by {
            if k != key {
                assert(counts_spec(d).contains_key(k));
            }
        }
    }
}

/// Whether telemetry may record anything: exactly when the player has
/// consented.
pub fn should_record(consent: bool) -> (r: bool)
    ensures
        r == consent,
{
    consent
}

/// The pending batch bounded to `cap` events: the most recent `cap` are
/// kept, the oldest dropped.
pub fn trim_batch(events: Vec<TelemetryEvent>, cap: usize) -> (r: Vec<TelemetryEvent>)
    ensures
        r@ == if events@.len() <= cap {
            events@
        } else {
            events@.skip(events@.len() - cap)
        },
{
    let len = events.len();
    if len <= cap {
        return events;
    }
    let ghost all = events@;
    let mut events = events;
    let kept = events.split_off(len - cap);
    assert(kept@ =~= all.skip(len - cap));
    kept
}

} // verus!
