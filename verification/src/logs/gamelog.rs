//! Combat log lines: damage dealt and received, and incoming electronic
//! warfare ("you're caught" signals); and the roll-ups behind an
//! after-action report, for one pilot or a fleet.

use vstd::prelude::*;
use crate::logs::{split_ts_spec, split_timestamp};
use crate::text::{
    lowercase, str_to_lowercase, contains_seq, contains_chars, chars_of, trim, trim_start, is_ws,
    is_whitespace, trim_bounds, trim_start_bound, find_char, lemma_find_char_is, find_seq, find_in,
    rfind, rfind_in, starts_with, range_eq, slice_chars, string_from_chars, parse_i64,
    parse_i64_spec, lines, line_bounds, seq_lt, lemma_seq_lt_order, str_lt, is_ascii_text, ascii_lower_seq,
};

verus! {

/// Whether a damage event was dealt by us or received by us.
#[derive(Debug, Clone, Copy, PartialEq, Eq)]
pub enum Direction {
    Dealt,
    Received,
}

/// One parsed combat damage event.
#[derive(Debug, Clone, PartialEq)]
pub struct DamageEvent {
    /// Event time (Unix seconds, the log's clock read as UTC; only
    /// differences matter).
    pub at: i64,
    pub amount: i64,
    pub direction: Direction,
    /// The other party (target when dealt, attacker when received).
    pub entity: String,
    /// Hit quality ("Hits", "Wrecks", "Grazes", ...); empty if absent.
    pub quality: String,
}

/// An incoming electronic-warfare effect applied to you (tackle, web,
/// jam, ...).
#[derive(Debug, Clone, PartialEq)]
pub struct EwarEvent {
    pub at: i64,
    /// The effect as the game logs it ("Warp scramble", "Stasis
    /// Webification").
    pub effect: String,
    /// The pilot applying it.
    pub source: String,
}

/// The integer roll-up of damage events behind an after-action report
/// (its per-second rates are these totals over the duration).
#[derive(Debug, Clone, PartialEq)]
pub struct CombatTally {
    pub damage_dealt: i64,
    pub damage_received: i64,
    /// Seconds from the first to the last event, at least 1.
    pub duration_seconds: i64,
    pub event_count: usize,
    /// The entities you damaged most (at most five), highest first.
    pub top_targets: Vec<EntityDamage>,
    /// The entities that damaged you most (at most five), highest first.
    pub top_attackers: Vec<EntityDamage>,
}

/// One pilot's share of a fleet roll-up.
#[derive(Debug, Clone, PartialEq)]
pub struct FleetPilotTally {
    pub name: String,
    pub tally: CombatTally,
}

/// The integer roll-up of several pilots' combat logs: each pilot's own
/// roll-up, and the fleet's totals over all their events together.
#[derive(Debug, Clone, PartialEq)]
pub struct FleetTally {
    /// Most damage dealt first; pilots who dealt as much keep their order.
    pub pilots: Vec<FleetPilotTally>,
    pub damage_dealt: i64,
    pub damage_received: i64,
    /// Seconds from the fleet's first event to its last, at least 1.
    pub duration_seconds: i64,
    pub top_targets: Vec<EntityDamage>,
    pub top_attackers: Vec<EntityDamage>,
}

/// Damage attributed to one entity.
#[derive(Debug, Clone, PartialEq)]
pub struct EntityDamage {
    pub entity: String,
    pub damage: i64,
}

/// An effect that stops warping (scrambling or disruption), judged on the
/// lowercased effect text.
pub open spec fn hard_tackle_spec(effect: Seq<char>) -> bool {
    contains_seq(lowercase(effect), "scramble"@) || contains_seq(lowercase(effect), "disruption"@)
}

/// Whether `lowered` names an effect that stops warping: it mentions
/// "scramble" or "disruption".
pub fn is_hard_tackle_lowered(lowered: &str) -> (r: bool)
    ensures
        r == (contains_seq(lowered@, "scramble"@) || contains_seq(lowered@, "disruption"@)),
{
    let l = chars_of(lowered);
    let a = chars_of("scramble");
    let b = chars_of("disruption");
    contains_chars(&l, &a) || contains_chars(&l, &b)
}

/// Whether an electronic-warfare effect is hard tackle (stops warping:
/// warp scrambling or disruption) rather than soft.
pub fn is_hard_tackle(effect: &str) -> (r: bool)
    ensures
        r == hard_tackle_spec(effect@),
        is_ascii_text(effect@) ==> lowercase(effect@) == ascii_lower_seq(effect@),
{
    let lowered = str_to_lowercase(effect);
    is_hard_tackle_lowered(lowered.as_str())
}

/// The text of `s` with `<...>` markup removed, starting `depth` tags deep:
/// tags may nest, and a `>` outside any tag is dropped.
pub open spec fn untagged(s: Seq<char>, depth: nat) -> Seq<char>
    decreases s.len(),
{
    if s.len() == 0 {
        seq![]
    } else if s[0] == '<' {
        untagged(s.drop_first(), depth + 1)
    } else if s[0] == '>' {
        untagged(
            s.drop_first(),
            if depth > 0 {
                (depth - 1) as nat
            } else {
                0
            },
        )
    } else if depth == 0 {
        seq![s[0]] + untagged(s.drop_first(), 0)
    } else {
        untagged(s.drop_first(), depth)
    }
}

/// `s[a..b]` with its markup removed (see [`untagged`]).
fn strip_tags(s: &Vec<char>, a: usize, b: usize) -> (r: Vec<char>)
    requires
        a <= b <= s.len(),
    ensures
        r@ == untagged(s@.subrange(a as int, b as int), 0),
{
    let mut out: Vec<char> = Vec::new();
    let mut depth: usize = 0;
    let mut i = a;
    assert(out@ + untagged(s@.subrange(a as int, b as int), 0) =~= untagged(s@.subrange(a as int, b as int), 0));
    while i < b
        invariant
            a <= i <= b <= s.len(),
            depth <= i - a,
            out@ + untagged(s@.subrange(i as int, b as int), depth as nat) == untagged(
                s@.subrange(a as int, b as int),
                0,
            ),
        decreases b - i,
    {
        let ghost t = s@.subrange(i as int, b as int);
        assert(t[0] == s@[i as int]);
        assert(t.drop_first() =~= s@.subrange(i + 1, b as int));
        let c = s[i];
        if c == '<' {
            depth += 1;
        } else if c == '>' {
            if depth > 0 {
                depth -= 1;
            }
        } else if depth == 0 {
            let ghost o = out@;
            out.push(c);
            assert(o + untagged(t, 0) =~= out@ + untagged(s@.subrange(i + 1, b as int), 0));
        }
        i += 1;
    }
    assert(out@ + untagged(s@.subrange(b as int, b as int), depth as nat) =~= out@);
    out
}

/// The instant and the trimmed, markup-free text of a combat line
/// `[ timestamp ] (combat) ...`; none for any other line.
pub open spec fn combat_text_spec(line: Seq<char>) -> Option<(i64, Seq<char>)> {
    match split_ts_spec(line) {
        None => None,
        Some((at, body)) => if starts_with(body, "(combat)"@) {
            Some((at, trim(untagged(trim(body.skip("(combat)"@.len() as int)), 0))))
        } else {
            None
        },
    }
}

/// The combat text of the line `s[a..b]` (see [`combat_text_spec`]).
fn combat_text(s: &Vec<char>, a: usize, b: usize) -> (r: Option<(i64, Vec<char>)>)
    requires
        a <= b <= s.len(),
    ensures
        match r {
            Some((at, t)) => combat_text_spec(s@.subrange(a as int, b as int)) == Some((at, t@)),
            None => combat_text_spec(s@.subrange(a as int, b as int)) is None,
        },
{
    let (at, k) = match split_timestamp(s, a, b) {
        Some(x) => x,
        None => {
            return None;
        },
    };
    let tag = chars_of("(combat)");
    let m = tag.len();
    let ghost body = s@.subrange(k as int, b as int);
    if b - k < m {
        return None;
    }
    let hit = range_eq(s, k, k + m, &tag, 0, m);
    proof {
        assert(body.take(m as int) =~= s@.subrange(k as int, k + m));
        assert(tag@.subrange(0, m as int) =~= tag@);
    }
    if !hit {
        return None;
    }
    assert(body.skip(m as int) =~= s@.subrange(k + m, b as int));
    let (x, y) = trim_bounds(s, k + m, b);
    let u = strip_tags(s, x, y);
    let (p, q) = trim_bounds(&u, 0, u.len());
    assert(u@.subrange(0, u@.len() as int) =~= u@);
    Some((at, slice_chars(&u, p, q)))
}

/// Index of the first whitespace character of `s`, or its length.
pub open spec fn first_ws(s: Seq<char>) -> nat
    decreases s.len(),
{
    if s.len() == 0 || is_ws(s[0]) {
        0
    } else {
        1 + first_ws(s.drop_first())
    }
}

proof fn lemma_first_ws_is(s: Seq<char>, k: int)
    requires
        0 <= k <= s.len(),
        forall|j: int| 0 <= j < k ==> !is_ws(#[trigger] s[j]),
        k < s.len() ==> is_ws(s[k]),
    ensures
        first_ws(s) == k,
    decreases k,
{
    if k > 0 {
        assert forall|j: int| 0 <= j < k - 1 implies !is_ws(#[trigger] s.drop_first()[j]) by {
            assert(s.drop_first()[j] == s[j + 1]);
        }
        lemma_first_ws_is(s.drop_first(), k - 1);
    }
}

/// Where the first whitespace character of `s[a..b]` stands, or `b`.
fn first_ws_in(s: &Vec<char>, a: usize, b: usize) -> (r: usize)
    requires
        a <= b <= s.len(),
    ensures
        a <= r <= b,
        r - a == first_ws(s@.subrange(a as int, b as int)),
{
    let mut j = a;
    while j < b && !is_whitespace(s[j])
        invariant
            a <= j <= b <= s.len(),
            forall|m: int| a <= m < j ==> !is_ws(#[trigger] s@[m]),
        decreases b - j,
    {
        j += 1;
    }
    proof {
        let t = s@.subrange(a as int, b as int);
        assert forall|m: int| 0 <= m < j - a implies !is_ws(#[trigger] t[m]) by {
            assert(t[m] == s@[a + m]);
        }
        if j < b {
            assert(t[j - a] == s@[j as int]);
        }
        lemma_first_ws_is(t, j - a);
    }
    j
}

/// Where the first `c` of `s[a..b]` stands, or `b`.
fn find_char_in(s: &Vec<char>, a: usize, b: usize, c: char) -> (r: usize)
    requires
        a <= b <= s.len(),
    ensures
        a <= r <= b,
        r - a == find_char(s@.subrange(a as int, b as int), c),
{
    let mut j = a;
    while j < b && s[j] != c
        invariant
            a <= j <= b <= s.len(),
            forall|m: int| a <= m < j ==> s@[m] != c,
        decreases b - j,
    {
        j += 1;
    }
    proof {
        let t = s@.subrange(a as int, b as int);
        assert forall|m: int| 0 <= m < j - a implies t[m] != c by {
            assert(t[m] == s@[a + m]);
        }
        if j < b {
            assert(t[j - a] == s@[j as int]);
        }
        lemma_find_char_is(t, c, j - a);
    }
    j
}

/// The first two words of the trimmed text `t` (`split_whitespace`): the
/// text up to the first whitespace, then, past the whitespace that follows,
/// the text up to the next whitespace.
pub open spec fn two_words(t: Seq<char>) -> Option<(Seq<char>, Seq<char>)> {
    if t.len() == 0 {
        None
    } else {
        let rest = trim_start(t.skip(first_ws(t) as int));
        if rest.len() == 0 {
            None
        } else {
            Some((t.take(first_ws(t) as int), rest.take(first_ws(rest) as int)))
        }
    }
}

/// A readable entity name: the trimmed text before the first `[` (or,
/// without one, the first `(`), trimmed again. This drops the corporation
/// and ship suffix, as in `Guristas Wrangler[GURI](Frigate)`.
pub open spec fn entity_name(s: Seq<char>) -> Seq<char> {
    let t = trim(s);
    let cut = if find_char(t, '[') < t.len() {
        find_char(t, '[')
    } else {
        find_char(t, '(')
    };
    trim(t.take(cut as int))
}

/// The entity name of `s[a..b]` (see [`entity_name`]).
fn clean_entity(s: &Vec<char>, a: usize, b: usize) -> (r: Vec<char>)
    requires
        a <= b <= s.len(),
    ensures
        r@ == entity_name(s@.subrange(a as int, b as int)),
{
    let (x, y) = trim_bounds(s, a, b);
    let ghost t = s@.subrange(x as int, y as int);
    let j = find_char_in(s, x, y, '[');
    let cut = if j < y {
        j
    } else {
        find_char_in(s, x, y, '(')
    };
    let (p, q) = trim_bounds(s, x, cut);
    assert(t.take(cut - x) =~= s@.subrange(x as int, cut as int));
    slice_chars(s, p, q)
}

/// The text of `s` before the first occurrence of `p`, all of `s` when `p`
/// does not occur (the first piece of `str::split`).
pub open spec fn before(s: Seq<char>, p: Seq<char>) -> Seq<char> {
    match find_seq(s, p) {
        Some(i) => s.take(i),
        None => s,
    }
}

/// The fields after the timestamp of a damage line whose markup-free text
/// is `text` (`247 to Guristas Wrangler[GURI](Frigate) - Hits`): the amount
/// (the first word, as an `i64`), the direction (second word `to` or
/// `from`), the entity name after the first ` to ` / ` from `, up to the
/// last ` - `, and the trimmed quality after that ` - ` (empty without one).
pub open spec fn damage_fields(text: Seq<char>) -> Option<(i64, Direction, Seq<char>, Seq<char>)> {
    match two_words(text) {
        None => None,
        Some((w1, w2)) => match parse_i64_spec(w1) {
            None => None,
            Some(amount) => {
                let d = if w2 == "to"@ {
                    Some(Direction::Dealt)
                } else if w2 == "from"@ {
                    Some(Direction::Received)
                } else {
                    None
                };
                match d {
                    None => None,
                    Some(dir) => {
                        let pat = match dir {
                            Direction::Dealt => " to "@,
                            Direction::Received => " from "@,
                        };
                        match find_seq(text, pat) {
                            None => None,
                            Some(p) => {
                                let rem = text.skip(p + pat.len());
                                match rfind(rem, " - "@) {
                                    Some(q) => Some(
                                        (amount, dir, entity_name(rem.take(q)), trim(rem.skip(q + " - "@.len()))),
                                    ),
                                    None => Some((amount, dir, entity_name(rem), seq![])),
                                }
                            },
                        }
                    },
                }
            },
        },
    }
}

/// `(time, amount, direction, entity, quality)` of a combat damage line;
/// none for any other line.
pub open spec fn damage_line_spec(line: Seq<char>) -> Option<(i64, i64, Direction, Seq<char>, Seq<char>)> {
    match combat_text_spec(line) {
        None => None,
        Some((at, text)) => match damage_fields(text) {
            None => None,
            Some((amount, dir, entity, quality)) => Some((at, amount, dir, entity, quality)),
        },
    }
}

/// A damage event as `(time, amount, direction, entity, quality)`.
pub open spec fn damage_view(e: DamageEvent) -> (i64, i64, Direction, Seq<char>, Seq<char>) {
    (e.at, e.amount, e.direction, e.entity@, e.quality@)
}

/// The damage line `s[a..b]` (see [`damage_line_spec`]).
fn damage_line_in(s: &Vec<char>, a: usize, b: usize) -> (r: Option<DamageEvent>)
    requires
        a <= b <= s.len(),
    ensures
        match r {
            Some(e) => damage_line_spec(s@.subrange(a as int, b as int)) == Some(damage_view(e)),
            None => damage_line_spec(s@.subrange(a as int, b as int)) is None,
        },
{
    let (at, t) = match combat_text(s, a, b) {
        Some(x) => x,
        None => {
            return None;
        },
    };
    let n = t.len();
    assert(t@.subrange(0, n as int) =~= t@);
    if n == 0 {
        return None;
    }
    let e1 = first_ws_in(&t, 0, n);
    let r0 = trim_start_bound(&t, e1, n);
    assert(t@.skip(e1 as int) =~= t@.subrange(e1 as int, n as int));
    if r0 == n {
        return None;
    }
    let e2 = first_ws_in(&t, r0, n);
    assert(t@.take(e1 as int) =~= t@.subrange(0, e1 as int));
    assert(t@.subrange(r0 as int, n as int).take(e2 - r0) =~= t@.subrange(r0 as int, e2 as int));
    let amount = match parse_i64(&t, 0, e1) {
        Some(v) => v,
        None => {
            return None;
        },
    };
    let to = chars_of("to");
    let from = chars_of("from");
    assert(to@.subrange(0, to@.len() as int) =~= to@);
    assert(from@.subrange(0, from@.len() as int) =~= from@);
    let dir = if range_eq(&t, r0, e2, &to, 0, to.len()) {
        Direction::Dealt
    } else if range_eq(&t, r0, e2, &from, 0, from.len()) {
        Direction::Received
    } else {
        return None;
    };
    let pat = match dir {
        Direction::Dealt => chars_of(" to "),
        Direction::Received => chars_of(" from "),
    };
    let p = match find_in(&t, 0, n, &pat) {
        Some(i) => i,
        None => {
            return None;
        },
    };
    let st = p + pat.len();
    assert(t@.skip(st as int) =~= t@.subrange(st as int, n as int));
    let dash = chars_of(" - ");
    match rfind_in(&t, st, n, &dash) {
        Some(q) => {
            assert(t@.subrange(st as int, n as int).take(q - st) =~= t@.subrange(st as int, q as int));
            assert(t@.subrange(st as int, n as int).skip(q - st + dash@.len()) =~= t@.subrange(
                q + dash@.len(),
                n as int,
            ));
            let entity = clean_entity(&t, st, q);
            let (x, y) = trim_bounds(&t, q + dash.len(), n);
            Some(
                DamageEvent {
                    at,
                    amount,
                    direction: dir,
                    entity: string_from_chars(entity.as_slice()),
                    quality: string_from_chars(slice_chars(&t, x, y).as_slice()),
                },
            )
        },
        None => {
            let entity = clean_entity(&t, st, n);
            let empty: Vec<char> = Vec::new();
            assert(empty@ =~= seq![]);
            Some(
                DamageEvent {
                    at,
                    amount,
                    direction: dir,
                    entity: string_from_chars(entity.as_slice()),
                    quality: string_from_chars(empty.as_slice()),
                },
            )
        },
    }
}

/// Parses one combat-log line into a damage event (`247 to Guristas
/// Wrangler[GURI](Frigate) - Hits` after the timestamp and `(combat)`, with
/// its markup removed); `None` for any other line.
pub fn parse_combat_line(line: &str) -> (r: Option<DamageEvent>)
    ensures
        match r {
            Some(e) => damage_line_spec(line@) == Some(damage_view(e)),
            None => damage_line_spec(line@) is None,
        },
{
    let s = chars_of(line);
    assert(s@.subrange(0, s@.len() as int) =~= s@);
    damage_line_in(&s, 0, s.len())
}

/// `(time, effect, source)` of an incoming electronic-warfare line, the
/// `<Effect> attempt from <Source> to you!` family; none for any other line.
/// The line must be a combat line whose lowercased text holds
/// ` attempt from ` and `to you`; the effect is the trimmed text before the
/// first ` attempt`, the source the trimmed text after the first
/// ` attempt from ` up to the next ` to ` (or the next ` attempt from `);
/// neither may be empty. Both are reduced to entity names.
pub open spec fn ewar_line_spec(line: Seq<char>) -> Option<(i64, Seq<char>, Seq<char>)> {
    match combat_text_spec(line) {
        None => None,
        Some((at, text)) => {
            let lower = lowercase(text);
            if !contains_seq(lower, " attempt from "@) || !contains_seq(lower, "to you"@) {
                None
            } else {
                match find_seq(text, " attempt from "@) {
                    None => None,
                    Some(p) => {
                        let effect = trim(before(text, " attempt"@));
                        let segment = before(text.skip(p + " attempt from "@.len()), " attempt from "@);
                        let source = trim(before(segment, " to "@));
                        if effect.len() == 0 || source.len() == 0 {
                            None
                        } else {
                            Some((at, entity_name(effect), entity_name(source)))
                        }
                    },
                }
            }
        },
    }
}

/// On a combat line with ASCII text, the text lowercases the ASCII way.
pub open spec fn ewar_text_ascii(line: Seq<char>) -> bool {
    match combat_text_spec(line) {
        Some((_, text)) => is_ascii_text(text) ==> lowercase(text) == ascii_lower_seq(text),
        None => true,
    }
}

/// An electronic-warfare event as `(time, effect, source)`.
pub open spec fn ewar_view(e: EwarEvent) -> (i64, Seq<char>, Seq<char>) {
    (e.at, e.effect@, e.source@)
}

/// Where `p` first occurs in `s[a..b]`, or `b`; the text before it is
/// [`before`] of the range.
fn before_in(s: &Vec<char>, a: usize, b: usize, p: &Vec<char>) -> (r: usize)
    requires
        a <= b <= s.len(),
    ensures
        a <= r <= b,
        s@.subrange(a as int, r as int) == before(s@.subrange(a as int, b as int), p@),
{
    match find_in(s, a, b, p) {
        Some(i) => {
            assert(s@.subrange(a as int, b as int).take(i - a) =~= s@.subrange(a as int, i as int));
            i
        },
        None => {
            b
        },
    }
}

/// The electronic-warfare line `s[a..b]` (see [`ewar_line_spec`]).
fn ewar_line_in(s: &Vec<char>, a: usize, b: usize) -> (r: Option<EwarEvent>)
    requires
        a <= b <= s.len(),
    ensures
        match r {
            Some(e) => ewar_line_spec(s@.subrange(a as int, b as int)) == Some(ewar_view(e)),
            None => ewar_line_spec(s@.subrange(a as int, b as int)) is None,
        },
        ewar_text_ascii(s@.subrange(a as int, b as int)),
{
    let (at, t) = match combat_text(s, a, b) {
        Some(x) => x,
        None => {
            return None;
        },
    };
    let n = t.len();
    assert(t@.subrange(0, n as int) =~= t@);
    let text = string_from_chars(t.as_slice());
    let lower = str_to_lowercase(text.as_str());
    let lc = chars_of(lower.as_str());
    let from_pat = chars_of(" attempt from ");
    let to_you = chars_of("to you");
    if !contains_chars(&lc, &from_pat) || !contains_chars(&lc, &to_you) {
        return None;
    }
    let p = match find_in(&t, 0, n, &from_pat) {
        Some(i) => i,
        None => {
            return None;
        },
    };
    let attempt = chars_of(" attempt");
    let e_end = before_in(&t, 0, n, &attempt);
    let (ea, eb) = trim_bounds(&t, 0, e_end);
    let st = p + from_pat.len();
    assert(t@.skip(st as int) =~= t@.subrange(st as int, n as int));
    let seg_end = before_in(&t, st, n, &from_pat);
    let to = chars_of(" to ");
    let src_end = before_in(&t, st, seg_end, &to);
    let (sa, sb) = trim_bounds(&t, st, src_end);
    if ea == eb || sa == sb {
        return None;
    }
    let effect = clean_entity(&t, ea, eb);
    let source = clean_entity(&t, sa, sb);
    Some(
        EwarEvent {
            at,
            effect: string_from_chars(effect.as_slice()),
            source: string_from_chars(source.as_slice()),
        },
    )
}

/// Parses one combat-log line reporting electronic warfare applied to you
/// (`Warp scramble attempt from Enemy Hunter[BAD](Sabre) to you!`); `None`
/// for any other line.
pub fn parse_ewar_line(line: &str) -> (r: Option<EwarEvent>)
    ensures
        match r {
            Some(e) => ewar_line_spec(line@) == Some(ewar_view(e)),
            None => ewar_line_spec(line@) is None,
        },
        ewar_text_ascii(line@),
{
    let s = chars_of(line);
    assert(s@.subrange(0, s@.len() as int) =~= s@);
    ewar_line_in(&s, 0, s.len())
}

/// The damage events of the lines `ls`, in order, other lines skipped.
pub open spec fn damage_lines_spec(ls: Seq<Seq<char>>) -> Seq<(i64, i64, Direction, Seq<char>, Seq<char>)>
    decreases ls.len(),
{
    if ls.len() == 0 {
        seq![]
    } else {
        let prev = damage_lines_spec(ls.drop_last());
        match damage_line_spec(ls.last()) {
            Some(e) => prev.push(e),
            None => prev,
        }
    }
}

/// Damage events as `(time, amount, direction, entity, quality)`.
pub open spec fn damages_view(v: Seq<DamageEvent>) -> Seq<(i64, i64, Direction, Seq<char>, Seq<char>)> {
    v.map_values(|e: DamageEvent| damage_view(e))
}

/// The electronic-warfare events of the lines `ls`, in order, other lines
/// skipped.
pub open spec fn ewar_lines_spec(ls: Seq<Seq<char>>) -> Seq<(i64, Seq<char>, Seq<char>)>
    decreases ls.len(),
{
    if ls.len() == 0 {
        seq![]
    } else {
        let prev = ewar_lines_spec(ls.drop_last());
        match ewar_line_spec(ls.last()) {
            Some(e) => prev.push(e),
            None => prev,
        }
    }
}

/// Electronic-warfare events as `(time, effect, source)`.
pub open spec fn ewars_view(v: Seq<EwarEvent>) -> Seq<(i64, Seq<char>, Seq<char>)> {
    v.map_values(|e: EwarEvent| ewar_view(e))
}

/// Parses a whole combat log into its damage events, in order, skipping
/// every other line.
#[verifier::rlimit(40)]
pub fn parse_gamelog(text: &str) -> (r: Vec<DamageEvent>)
    ensures
        damages_view(r@) == damage_lines_spec(lines(text@)),
{
    let s = chars_of(text);
    let lb = line_bounds(&s);
    let ghost ls = lines(s@);
    let mut out: Vec<DamageEvent> = Vec::new();
    let mut k: usize = 0;
    while k < lb.len()
        invariant
            s@ == text@,
            ls == lines(s@),
            lb@.len() == ls.len(),
            forall|i: int| #![trigger lb@[i]] 0 <= i < lb@.len() ==> lb@[i].0 <= lb@[i].1 && lb@[i].1 <= s@.len(),
            forall|i: int| 0 <= i < lb@.len() ==> s@.subrange(lb@[i].0 as int, lb@[i].1 as int) == #[trigger] ls[i],
            k <= lb@.len(),
            damages_view(out@) == damage_lines_spec(ls.take(k as int)),
        decreases lb@.len() - k,
    {
        let (a, b) = lb[k];
        proof {
            assert(ls.take(k + 1).drop_last() =~= ls.take(k as int));
            assert(ls.take(k + 1).last() == ls[k as int]);
        }
        if let Some(e) = damage_line_in(&s, a, b) {
            let ghost before = out@;
            out.push(e);
            assert(damages_view(out@) =~= damages_view(before).push(damage_view(e)));
        }
        k += 1;
    }
    assert(ls.take(lb@.len() as int) =~= ls);
    out
}

/// All incoming electronic-warfare events in a combat log, oldest first,
/// skipping every other line.
#[verifier::rlimit(40)]
pub fn parse_ewar(text: &str) -> (r: Vec<EwarEvent>)
    ensures
        ewars_view(r@) == ewar_lines_spec(lines(text@)),
{
    let s = chars_of(text);
    let lb = line_bounds(&s);
    let ghost ls = lines(s@);
    let mut out: Vec<EwarEvent> = Vec::new();
    let mut k: usize = 0;
    while k < lb.len()
        invariant
            s@ == text@,
            ls == lines(s@),
            lb@.len() == ls.len(),
            forall|i: int| #![trigger lb@[i]] 0 <= i < lb@.len() ==> lb@[i].0 <= lb@[i].1 && lb@[i].1 <= s@.len(),
            forall|i: int| 0 <= i < lb@.len() ==> s@.subrange(lb@[i].0 as int, lb@[i].1 as int) == #[trigger] ls[i],
            k <= lb@.len(),
            ewars_view(out@) == ewar_lines_spec(ls.take(k as int)),
        decreases lb@.len() - k,
    {
        let (a, b) = lb[k];
        proof {
            assert(ls.take(k + 1).drop_last() =~= ls.take(k as int));
            assert(ls.take(k + 1).last() == ls[k as int]);
        }
        if let Some(e) = ewar_line_in(&s, a, b) {
            let ghost before = out@;
            out.push(e);
            assert(ewars_view(out@) =~= ewars_view(before).push(ewar_view(e)));
        }
        k += 1;
    }
    assert(ls.take(lb@.len() as int) =~= ls);
    out
}

/// A damage event as the roll-ups read it: `(time, amount, direction,
/// entity, quality)`.
pub type DamageView = (i64, i64, Direction, Seq<char>, Seq<char>);

/// Total damage of the events in direction `d`.
pub open spec fn dir_total(es: Seq<DamageView>, d: Direction) -> int
    decreases es.len(),
{
    if es.len() == 0 {
        0
    } else {
        dir_total(es.drop_last(), d) + if es.last().2 == d {
            es.last().1 as int
        } else {
            0
        }
    }
}

/// Total damage of the events in direction `d` with entity `name`.
pub open spec fn entity_total(es: Seq<DamageView>, d: Direction, name: Seq<char>) -> int
    decreases es.len(),
{
    if es.len() == 0 {
        0
    } else {
        entity_total(es.drop_last(), d, name) + if es.last().2 == d && es.last().3 == name {
            es.last().1 as int
        } else {
            0
        }
    }
}

/// Some event in direction `d` has entity `name`.
pub open spec fn involved(es: Seq<DamageView>, d: Direction, name: Seq<char>) -> bool {
    exists|i: int| 0 <= i < es.len() && (#[trigger] es[i]).2 == d && es[i].3 == name
}

/// Sum of the absolute amounts of the events in direction `d`.
pub open spec fn abs_damage_sum(es: Seq<DamageView>, d: Direction) -> int
    decreases es.len(),
{
    if es.len() == 0 {
        0
    } else {
        abs_damage_sum(es.drop_last(), d) + if es.last().2 != d {
            0
        } else if es.last().1 < 0 {
            -(es.last().1 as int)
        } else {
            es.last().1 as int
        }
    }
}

/// Earliest event time (of a non-empty list).
pub open spec fn first_at(es: Seq<DamageView>) -> int
    decreases es.len(),
{
    if es.len() <= 1 {
        es[0].0 as int
    } else if es.last().0 < first_at(es.drop_last()) {
        es.last().0 as int
    } else {
        first_at(es.drop_last())
    }
}

/// Latest event time (of a non-empty list).
pub open spec fn last_at(es: Seq<DamageView>) -> int
    decreases es.len(),
{
    if es.len() <= 1 {
        es[0].0 as int
    } else if es.last().0 > last_at(es.drop_last()) {
        es.last().0 as int
    } else {
        last_at(es.drop_last())
    }
}

/// Seconds from the first to the last event, at least 1 (1 without
/// events).
pub open spec fn span_seconds(es: Seq<DamageView>) -> int {
    if es.len() == 0 || last_at(es) - first_at(es) < 1 {
        1
    } else {
        last_at(es) - first_at(es)
    }
}

proof fn lemma_totals_bounded(es: Seq<DamageView>, d: Direction, name: Seq<char>)
    ensures
        -abs_damage_sum(es, d) <= dir_total(es, d) <= abs_damage_sum(es, d),
        -abs_damage_sum(es, d) <= entity_total(es, d, name) <= abs_damage_sum(es, d),
        !involved(es, d, name) ==> entity_total(es, d, name) == 0,
    decreases es.len(),
{
    if es.len() > 0 {
        let p = es.drop_last();
        lemma_totals_bounded(p, d, name);
        if involved(p, d, name) {
            let i = choose|i: int| 0 <= i < p.len() && (#[trigger] p[i]).2 == d && p[i].3 == name;
            assert(es[i] == p[i]);
        }
    }
}

proof fn lemma_abs_damage_prefix(es: Seq<DamageView>, k: int, d: Direction)
    requires
        0 <= k <= es.len(),
    ensures
        0 <= abs_damage_sum(es.take(k), d) <= abs_damage_sum(es, d),
    decreases es.len() - k,
{
    if k < es.len() {
        lemma_abs_damage_prefix(es, k + 1, d);
        assert(es.take(k + 1).drop_last() =~= es.take(k));
        lemma_abs_damage_nonneg(es.take(k), d);
    } else {
        assert(es.take(k) =~= es);
        lemma_abs_damage_nonneg(es, d);
    }
}

proof fn lemma_abs_damage_nonneg(es: Seq<DamageView>, d: Direction)
    ensures
        abs_damage_sum(es, d) >= 0,
    decreases es.len(),
{
    if es.len() > 0 {
        lemma_abs_damage_nonneg(es.drop_last(), d);
    }
}

/// An entity's damage as `(name, damage)`.
pub open spec fn entity_damage_view(e: EntityDamage) -> (Seq<char>, int) {
    (e.entity@, e.damage as int)
}

/// Entity damages as `(name, damage)`.
pub open spec fn entity_damages_view(v: Seq<EntityDamage>) -> Seq<(Seq<char>, int)> {
    v.map_values(|e: EntityDamage| entity_damage_view(e))
}

/// `groups` holds, once each, every entity of the events `es` in direction
/// `d`, with its total damage.
pub open spec fn groups_of(es: Seq<DamageView>, d: Direction, groups: Seq<(Seq<char>, int)>) -> bool {
    &&& forall|a: int, b: int| 0 <= a < b < groups.len() ==> (#[trigger] groups[a]).0 != (#[trigger] groups[b]).0
    &&& forall|a: int|
        0 <= a < groups.len() ==> involved(es, d, (#[trigger] groups[a]).0) && groups[a].1 == entity_total(
            es,
            d,
            groups[a].0,
        )
    &&& forall|name: Seq<char>|
        involved(es, d, name) ==> exists|a: int| 0 <= a < groups.len() && (#[trigger] groups[a]).0 == name
}

/// The damage per entity of the events in direction `d`, each entity once.
fn group_totals(events: &[DamageEvent], d: Direction) -> (r: Vec<EntityDamage>)
    requires
        abs_damage_sum(damages_view(events@), d) <= i64::MAX,
    ensures
        groups_of(damages_view(events@), d, entity_damages_view(r@)),
{
    let ghost es = damages_view(events@);
    let mut groups: Vec<EntityDamage> = Vec::new();
    let mut k: usize = 0;
    assert(entity_damages_view(groups@) =~= seq![]);
    while k < events.len()
        invariant
            es == damages_view(events@),
            k <= events@.len(),
            abs_damage_sum(es, d) <= i64::MAX,
            groups_of(es.take(k as int), d, entity_damages_view(groups@)),
        decreases events@.len() - k,
    {
        let e = &events[k];
        let ghost pre = es.take(k as int);
        let ghost post = es.take(k + 1);
        let ghost gv = entity_damages_view(groups@);
        proof {
            assert(post.drop_last() =~= pre);
            assert(post.last() == damage_view(*e));
            assert forall|name: Seq<char>| involved(pre, d, name) implies involved(post, d, name) by {
                let i = choose|i: int| 0 <= i < pre.len() && (#[trigger] pre[i]).2 == d && pre[i].3 == name;
                assert(post[i] == pre[i]);
            }
        }
        let same = match (e.direction, d) {
            (Direction::Dealt, Direction::Dealt) => true,
            (Direction::Received, Direction::Received) => true,
            _ => false,
        };
        if !same {
            proof {
                assert forall|name: Seq<char>| involved(post, d, name) implies involved(pre, d, name) by {
                    let i = choose|i: int| 0 <= i < post.len() && (#[trigger] post[i]).2 == d && post[i].3 == name;
                    assert(i < pre.len());
                    assert(pre[i] == post[i]);
                }
            }
        } else {
            let mut a: usize = 0;
            while a < groups.len()
                invariant
                    gv == entity_damages_view(groups@),
                    a <= groups@.len(),
                    forall|b: int| 0 <= b < a ==> (#[trigger] gv[b]).0 != e.entity@,
                ensures
                    a <= groups@.len(),
                    forall|b: int| 0 <= b < a ==> (#[trigger] gv[b]).0 != e.entity@,
                    a < groups@.len() ==> gv[a as int].0 == e.entity@,
                decreases groups@.len() - a,
            {
                if crate::text::str_eq(groups[a].entity.as_str(), e.entity.as_str()) {
                    break;
                }
                a += 1;
            }
            proof {
                lemma_totals_bounded(post, d, e.entity@);
                lemma_abs_damage_prefix(es, k + 1, d);
            }
            if a < groups.len() {
                let cur = groups[a].damage;
                proof {
                    assert(gv[a as int].1 == entity_total(pre, d, e.entity@));
                }
                let name = groups[a].entity.clone();
                groups.set(a, EntityDamage { entity: name, damage: cur + e.amount });
                proof {
                    let nv = entity_damages_view(groups@);
                    assert(nv =~= gv.update(a as int, (e.entity@, cur + e.amount)));
                    assert forall|b: int, c: int| 0 <= b < c < nv.len() implies (#[trigger] nv[b]).0 != (#[trigger] nv[c]).0 by {
                        assert(gv[b].0 != gv[c].0);
                    }
                    assert forall|b: int| 0 <= b < nv.len() implies involved(post, d, (#[trigger] nv[b]).0) && nv[b].1
                        == entity_total(post, d, nv[b].0) by {
                        assert(involved(pre, d, gv[b].0));
                        if b != a {
                            assert(gv[b].0 != gv[a as int].0);
                        }
                    }
                    assert forall|name: Seq<char>| involved(post, d, name) implies exists|b: int|
                        0 <= b < nv.len() && (#[trigger] nv[b]).0 == name by {
                        if name == e.entity@ {
                            assert(nv[a as int].0 == name);
                        } else {
                            let i = choose|i: int| 0 <= i < post.len() && (#[trigger] post[i]).2 == d && post[i].3 == name;
                            assert(i < pre.len());
                            assert(pre[i] == post[i]);
                            assert(involved(pre, d, name));
                            let b = choose|b: int| 0 <= b < gv.len() && (#[trigger] gv[b]).0 == name;
                            assert(nv[b].0 == name);
                        }
                    }
                }
            } else {
                proof {
                    if involved(pre, d, e.entity@) {
                        let b = choose|b: int| 0 <= b < gv.len() && (#[trigger] gv[b]).0 == e.entity@;
                    }
                    lemma_totals_bounded(pre, d, e.entity@);
                }
                groups.push(EntityDamage { entity: e.entity.clone(), damage: e.amount });
                proof {
                    let nv = entity_damages_view(groups@);
                    assert(nv =~= gv.push((e.entity@, e.amount as int)));
                    assert(post[k as int] == damage_view(*e));
                    assert(involved(post, d, e.entity@));
                    assert forall|b: int, c: int| 0 <= b < c < nv.len() implies (#[trigger] nv[b]).0 != (#[trigger] nv[c]).0 by {
                        if c < gv.len() {
                            assert(gv[b].0 != gv[c].0);
                        }
                    }
                    assert forall|b: int| 0 <= b < nv.len() implies involved(post, d, (#[trigger] nv[b]).0) && nv[b].1
                        == entity_total(post, d, nv[b].0) by {
                        if b < gv.len() {
                            assert(involved(pre, d, gv[b].0));
                        }
                    }
                    assert forall|name: Seq<char>| involved(post, d, name) implies exists|b: int|
                        0 <= b < nv.len() && (#[trigger] nv[b]).0 == name by {
                        if name == e.entity@ {
                            assert(nv[gv.len() as int].0 == name);
                        } else {
                            let i = choose|i: int| 0 <= i < post.len() && (#[trigger] post[i]).2 == d && post[i].3 == name;
                            assert(i < pre.len());
                            assert(pre[i] == post[i]);
                            assert(involved(pre, d, name));
                            let b = choose|b: int| 0 <= b < gv.len() && (#[trigger] gv[b]).0 == name;
                            assert(nv[b].0 == name);
                        }
                    }
                }
            }
        }
        k += 1;
    }
    assert(es.take(events@.len() as int) =~= es);
    groups
}

/// `a` ranks above `b`: more damage, or as much and a name that sorts
/// first.
pub open spec fn ranks_above(a: (Seq<char>, int), b: (Seq<char>, int)) -> bool {
    a.1 > b.1 || (a.1 == b.1 && seq_lt(a.0, b.0))
}

/// [`ranks_above`] is a strict total order on entries with distinct names.
pub proof fn lemma_ranks_above_order(a: (Seq<char>, int), b: (Seq<char>, int), c: (Seq<char>, int))
    ensures
        !ranks_above(a, a),
        ranks_above(a, b) ==> !ranks_above(b, a),
        ranks_above(a, b) && ranks_above(b, c) ==> ranks_above(a, c),
        a.0 != b.0 ==> ranks_above(a, b) || ranks_above(b, a),
{
    lemma_seq_lt_order(a.0, b.0, c.0);
    lemma_seq_lt_order(b.0, a.0, c.0);
}

/// `top` is the first `k` entries of `groups` by rank (all of them when
/// there are fewer): each is an entry of `groups`, they are listed
/// highest first, and an entry left out ranks below all `k` listed.
pub open spec fn is_top(groups: Seq<(Seq<char>, int)>, top: Seq<(Seq<char>, int)>, k: nat) -> bool {
    &&& top.len() <= k
    &&& forall|i: int| 0 <= i < top.len() ==> groups.contains(#[trigger] top[i])
    &&& forall|i: int, j: int| 0 <= i < j < top.len() ==> ranks_above(#[trigger] top[i], #[trigger] top[j])
    &&& forall|g: (Seq<char>, int)|
        #[trigger] groups.contains(g) && !top.contains(g) ==> top.len() == k && ranks_above(top[k - 1], g)
}

/// Whether entry `a` ranks above entry `b`.
fn ranks_above_exec(a: &EntityDamage, b: &EntityDamage) -> (r: bool)
    ensures
        r == ranks_above(entity_damage_view(*a), entity_damage_view(*b)),
{
    a.damage > b.damage || (a.damage == b.damage && str_lt(a.entity.as_str(), b.entity.as_str()))
}

/// The first `k` entries of `groups` by rank (see [`is_top`]).
fn select_top(groups: &Vec<EntityDamage>, k: usize) -> (r: Vec<EntityDamage>)
    requires
        k > 0,
        forall|a: int, b: int|
            0 <= a < b < groups@.len() ==> (#[trigger] groups@[a]).entity@ != (#[trigger] groups@[b]).entity@,
    ensures
        is_top(entity_damages_view(groups@), entity_damages_view(r@), k as nat),
{
    let ghost gv = entity_damages_view(groups@);
    let n = groups.len();
    let mut taken: Vec<bool> = Vec::new();
    let mut t: usize = 0;
    while t < n
        invariant
            t <= n,
            n == groups@.len(),
            taken@.len() == t,
            forall|a: int| 0 <= a < t ==> !taken@[a],
        decreases n - t,
    {
        taken.push(false);
        t += 1;
    }
    let mut top: Vec<EntityDamage> = Vec::new();
    let ghost mut picked: Seq<int> = seq![];
    let mut done = false;
    while top.len() < k && !done
        invariant
            gv == entity_damages_view(groups@),
            n == groups@.len(),
            k > 0,
            forall|a: int, b: int| 0 <= a < b < n ==> (#[trigger] gv[a]).0 != (#[trigger] gv[b]).0,
            taken@.len() == n,
            top@.len() <= k,
            picked.len() == top@.len(),
            forall|i: int| 0 <= i < picked.len() ==> 0 <= #[trigger] picked[i] < n && taken@[picked[i]],
            forall|a: int| 0 <= a < n && #[trigger] taken@[a] ==> exists|i: int| 0 <= i < picked.len() && picked[i] == a,
            forall|i: int| 0 <= i < top@.len() ==> entity_damages_view(top@)[i] == gv[#[trigger] picked[i]],
            forall|i: int, j: int|
                0 <= i < j < top@.len() ==> ranks_above(
                    #[trigger] entity_damages_view(top@)[i],
                    #[trigger] entity_damages_view(top@)[j],
                ),
            forall|i: int, a: int|
                0 <= i < top@.len() && 0 <= a < n && !(#[trigger] taken@[a]) ==> ranks_above(
                    #[trigger] entity_damages_view(top@)[i],
                    gv[a],
                ),
            done ==> forall|a: int| 0 <= a < n ==> #[trigger] taken@[a],
        decreases (k - top@.len()) * 2 + if done {
            0int
        } else {
            1int
        },
    {
        let mut best: usize = n;
        let mut a: usize = 0;
        while a < n
            invariant
                gv == entity_damages_view(groups@),
                n == groups@.len(),
                taken@.len() == n,
                a <= n,
                best <= n,
                forall|x: int, y: int| 0 <= x < y < n ==> (#[trigger] gv[x]).0 != (#[trigger] gv[y]).0,
                best == n ==> forall|b: int| 0 <= b < a ==> #[trigger] taken@[b],
                best < n ==> best < a && !taken@[best as int] && forall|b: int|
                    0 <= b < a && !(#[trigger] taken@[b]) && b != best ==> ranks_above(gv[best as int], gv[b]),
            decreases n - a,
        {
            if !taken[a] {
                if best == n || ranks_above_exec(&groups[a], &groups[best]) {
                    proof {
                        if best < n {
                            assert forall|b: int| 0 <= b < a + 1 && !(#[trigger] taken@[b]) && b != a implies ranks_above(
                                gv[a as int],
                                gv[b],
                            ) by {
                                if b != best {
                                    lemma_ranks_above_order(gv[a as int], gv[best as int], gv[b]);
                                }
                            }
                        }
                    }
                    best = a;
                } else {
                    proof {
                        lemma_ranks_above_order(gv[best as int], gv[a as int], gv[a as int]);
                    }
                }
            }
            a += 1;
        }
        if best == n {
            done = true;
        } else {
            let ghost tv = entity_damages_view(top@);
            let ghost old_taken = taken@;
            let chosen = EntityDamage { entity: groups[best].entity.clone(), damage: groups[best].damage };
            top.push(chosen);
            taken.set(best, true);
            proof {
                let nv = entity_damages_view(top@);
                assert(nv =~= tv.push(gv[best as int]));
                let np = picked.push(best as int);
                assert forall|a: int| 0 <= a < n && #[trigger] taken@[a] implies exists|i: int|
                    0 <= i < np.len() && np[i] == a by {
                    if a == best as int {
                        assert(np[np.len() - 1] == a);
                    } else {
                        assert(old_taken[a]);
                        let i = choose|i: int| 0 <= i < picked.len() && picked[i] == a;
                        assert(np[i] == a);
                    }
                }
                assert forall|i: int| 0 <= i < np.len() implies 0 <= #[trigger] np[i] < n && taken@[np[i]] by {
                    if i < picked.len() {
                        assert(np[i] == picked[i]);
                    }
                }
                assert forall|i: int| 0 <= i < top@.len() implies nv[i] == gv[#[trigger] np[i]] by {
                    if i < picked.len() {
                        assert(np[i] == picked[i]);
                    }
                }
                assert forall|i: int, j: int| 0 <= i < j < top@.len() implies ranks_above(
                    #[trigger] nv[i],
                    #[trigger] nv[j],
                ) by {
                    if j == tv.len() {
                        assert(!old_taken[best as int]);
                        assert(ranks_above(tv[i], gv[best as int]));
                    } else {
                        assert(ranks_above(tv[i], tv[j]));
                    }
                }
                assert forall|i: int, a: int| 0 <= i < top@.len() && 0 <= a < n && !(#[trigger] taken@[a]) implies ranks_above(
                    #[trigger] nv[i],
                    gv[a],
                ) by {
                    assert(a != best as int);
                    assert(!old_taken[a]);
                    if i < tv.len() {
                        assert(ranks_above(tv[i], gv[a]));
                    }
                }
                picked = np;
            }
        }
    }
    proof {
        let tv = entity_damages_view(top@);
        assert forall|i: int| 0 <= i < tv.len() implies gv.contains(#[trigger] tv[i]) by {
            assert(tv[i] == gv[picked[i]]);
        }
        assert forall|g: (Seq<char>, int)| #[trigger] gv.contains(g) && !tv.contains(g) implies tv.len() == k
            && ranks_above(tv[k - 1], g) by {
            let a = choose|a: int| 0 <= a < gv.len() && gv[a] == g;
            if taken@[a] {
                let i = choose|i: int| 0 <= i < picked.len() && picked[i] == a;
                assert(tv[i] == g);
            }
        }
    }
    top
}

/// `top` lists the `k` entities with the most damage in direction `d`
/// (all of them, when there are fewer), each with its total, highest
/// first; equal totals go by name.
pub open spec fn top_entities(es: Seq<DamageView>, d: Direction, top: Seq<(Seq<char>, int)>, k: nat) -> bool {
    &&& top.len() <= k
    &&& forall|i: int|
        0 <= i < top.len() ==> involved(es, d, (#[trigger] top[i]).0) && top[i].1 == entity_total(es, d, top[i].0)
    &&& forall|i: int, j: int| 0 <= i < j < top.len() ==> ranks_above(#[trigger] top[i], #[trigger] top[j])
    &&& forall|name: Seq<char>|
        #[trigger] involved(es, d, name) && (forall|i: int| 0 <= i < top.len() ==> top[i].0 != name) ==> top.len()
            == k && ranks_above(top[k - 1], (name, entity_total(es, d, name)))
}

proof fn lemma_top_name_fixes_entry(es: Seq<DamageView>, d: Direction, t: Seq<(Seq<char>, int)>, k: nat, i: int, j: int)
    requires
        top_entities(es, d, t, k),
        0 <= i < t.len(),
        0 <= j < t.len(),
        t[i].0 == t[j].0,
    ensures
        i == j,
{
    assert(t[i].1 == entity_total(es, d, t[i].0));
    assert(t[j].1 == entity_total(es, d, t[j].0));
    lemma_ranks_above_order(t[i], t[j], t[j]);
    if i < j {
        assert(ranks_above(t[i], t[j]));
    } else if j < i {
        assert(ranks_above(t[j], t[i]));
    }
}

proof fn lemma_top_no_better(
    es: Seq<DamageView>,
    d: Direction,
    ta: Seq<(Seq<char>, int)>,
    tb: Seq<(Seq<char>, int)>,
    k: nat,
    i: int,
)
    requires
        top_entities(es, d, ta, k),
        top_entities(es, d, tb, k),
        0 <= i < ta.len(),
        i < tb.len(),
        forall|j: int| 0 <= j < i ==> ta[j] == tb[j],
        ta[i].0 != tb[i].0,
    ensures
        !ranks_above(ta[i], tb[i]),
{
    let x = ta[i];
    let y = tb[i];
    assert(involved(es, d, x.0) && x.1 == entity_total(es, d, x.0));
    if ranks_above(x, y) {
        if exists|j: int| 0 <= j < tb.len() && tb[j].0 == x.0 {
            let j = choose|j: int| 0 <= j < tb.len() && tb[j].0 == x.0;
            assert(tb[j].1 == entity_total(es, d, tb[j].0));
            lemma_ranks_above_order(x, y, x);
            if j < i {
                assert(ta[j] == tb[j]);
                lemma_top_name_fixes_entry(es, d, ta, k, i, j);
            } else if j > i {
                assert(ranks_above(tb[i], tb[j]));
            }
        } else {
            assert(tb.len() == k && ranks_above(tb[k - 1], (x.0, entity_total(es, d, x.0))));
            if i < k - 1 {
                assert(ranks_above(tb[i], tb[k - 1]));
                lemma_ranks_above_order(y, tb[k - 1], x);
            }
            lemma_ranks_above_order(x, y, x);
        }
    }
}

proof fn lemma_top_missing(
    es: Seq<DamageView>,
    d: Direction,
    ta: Seq<(Seq<char>, int)>,
    tb: Seq<(Seq<char>, int)>,
    k: nat,
)
    requires
        top_entities(es, d, ta, k),
        top_entities(es, d, tb, k),
        ta.len() <= tb.len(),
        forall|j: int| 0 <= j < ta.len() ==> ta[j] == tb[j],
    ensures
        ta.len() == tb.len(),
{
    if ta.len() < tb.len() {
        let m = ta.len() as int;
        let z = tb[m];
        assert(involved(es, d, z.0) && z.1 == entity_total(es, d, z.0));
        if exists|j: int| 0 <= j < ta.len() && ta[j].0 == z.0 {
            let j = choose|j: int| 0 <= j < ta.len() && ta[j].0 == z.0;
            assert(tb[j] == ta[j]);
            lemma_top_name_fixes_entry(es, d, tb, k, j, m);
        } else {
            assert(ta.len() == k);
        }
    }
}

proof fn lemma_top_prefix(es: Seq<DamageView>, d: Direction, t1: Seq<(Seq<char>, int)>, t2: Seq<(Seq<char>, int)>, k: nat, i: int)
    requires
        top_entities(es, d, t1, k),
        top_entities(es, d, t2, k),
        0 <= i <= t1.len(),
        i <= t2.len(),
    ensures
        forall|j: int| 0 <= j < i ==> t1[j] == t2[j],
    decreases i,
{
    if i > 0 {
        lemma_top_prefix(es, d, t1, t2, k, i - 1);
        let x = t1[i - 1];
        let y = t2[i - 1];
        assert(x.1 == entity_total(es, d, x.0));
        assert(y.1 == entity_total(es, d, y.0));
        if x.0 != y.0 {
            lemma_top_no_better(es, d, t1, t2, k, i - 1);
            lemma_top_no_better(es, d, t2, t1, k, i - 1);
            lemma_ranks_above_order(x, y, y);
        }
    }
}

/// The top list is determined by the events: two lists that both meet
/// [`top_entities`] are the same list.
pub proof fn lemma_top_entities_unique(
    es: Seq<DamageView>,
    d: Direction,
    t1: Seq<(Seq<char>, int)>,
    t2: Seq<(Seq<char>, int)>,
    k: nat,
)
    requires
        top_entities(es, d, t1, k),
        top_entities(es, d, t2, k),
    ensures
        t1 == t2,
{
    if t1.len() < t2.len() {
        lemma_top_prefix(es, d, t1, t2, k, t1.len() as int);
        lemma_top_missing(es, d, t1, t2, k);
    } else if t2.len() < t1.len() {
        lemma_top_prefix(es, d, t2, t1, k, t2.len() as int);
        lemma_top_missing(es, d, t2, t1, k);
    } else {
        lemma_top_prefix(es, d, t1, t2, k, t1.len() as int);
        assert(t1 =~= t2);
    }
}

proof fn lemma_top_of_groups(es: Seq<DamageView>, d: Direction, groups: Seq<(Seq<char>, int)>, top: Seq<(Seq<char>, int)>, k: nat)
    requires
        groups_of(es, d, groups),
        is_top(groups, top, k),
    ensures
        top_entities(es, d, top, k),
{
    assert forall|i: int| 0 <= i < top.len() implies involved(es, d, (#[trigger] top[i]).0) && top[i].1
        == entity_total(es, d, top[i].0) by {
        assert(groups.contains(top[i]));
        let a = choose|a: int| 0 <= a < groups.len() && groups[a] == top[i];
        assert(involved(es, d, groups[a].0));
    }
    assert forall|name: Seq<char>|
        #[trigger] involved(es, d, name) && (forall|i: int| 0 <= i < top.len() ==> top[i].0 != name) implies top.len()
            == k && ranks_above(top[k - 1], (name, entity_total(es, d, name))) by {
        let a = choose|a: int| 0 <= a < groups.len() && (#[trigger] groups[a]).0 == name;
        assert(involved(es, d, groups[a].0));
        assert(groups.contains(groups[a]));
        if top.contains(groups[a]) {
            let i = choose|i: int| 0 <= i < top.len() && top[i] == groups[a];
            assert(top[i].0 == name);
        }
    }
}

/// Rolls damage events up into the totals of an after-action report:
/// damage dealt and received, the span from the first to the last event
/// (at least one second), the number of events, and the five entities
/// damaged most and the five that did most damage, highest first.
pub fn tally_combat(events: &[DamageEvent]) -> (r: CombatTally)
    requires
        abs_damage_sum(damages_view(events@), Direction::Dealt) <= i64::MAX,
        abs_damage_sum(damages_view(events@), Direction::Received) <= i64::MAX,
        events@.len() > 0 ==> last_at(damages_view(events@)) - first_at(damages_view(events@)) <= i64::MAX,
    ensures
        r.damage_dealt == dir_total(damages_view(events@), Direction::Dealt),
        r.damage_received == dir_total(damages_view(events@), Direction::Received),
        r.duration_seconds == span_seconds(damages_view(events@)),
        r.event_count == events@.len(),
        top_entities(damages_view(events@), Direction::Dealt, entity_damages_view(r.top_targets@), 5),
        top_entities(damages_view(events@), Direction::Received, entity_damages_view(r.top_attackers@), 5),
{
    let ghost es = damages_view(events@);
    let mut dealt: i64 = 0;
    let mut received: i64 = 0;
    let mut first: i64 = 0;
    let mut last: i64 = 0;
    let mut k: usize = 0;
    while k < events.len()
        invariant
            es == damages_view(events@),
            k <= events@.len(),
            abs_damage_sum(es, Direction::Dealt) <= i64::MAX,
            abs_damage_sum(es, Direction::Received) <= i64::MAX,
            dealt == dir_total(es.take(k as int), Direction::Dealt),
            received == dir_total(es.take(k as int), Direction::Received),
            k > 0 ==> first == first_at(es.take(k as int)) && last == last_at(es.take(k as int)),
        decreases events@.len() - k,
    {
        let e = &events[k];
        let ghost pre = es.take(k as int);
        let ghost post = es.take(k + 1);
        proof {
            assert(post.drop_last() =~= pre);
            assert(post.last() == damage_view(*e));
            lemma_totals_bounded(post, Direction::Dealt, seq![]);
            lemma_totals_bounded(post, Direction::Received, seq![]);
            lemma_abs_damage_prefix(es, k + 1, Direction::Dealt);
            lemma_abs_damage_prefix(es, k + 1, Direction::Received);
        }
        match e.direction {
            Direction::Dealt => {
                dealt = dealt + e.amount;
            },
            Direction::Received => {
                received = received + e.amount;
            },
        }
        if k == 0 {
            first = e.at;
            last = e.at;
        } else {
            if e.at < first {
                first = e.at;
            }
            if e.at > last {
                last = e.at;
            }
        }
        k += 1;
    }
    assert(es.take(events@.len() as int) =~= es);
    let duration: i64 = if events.len() == 0 || last - first < 1 {
        1
    } else {
        last - first
    };
    let targets = group_totals(events, Direction::Dealt);
    let attackers = group_totals(events, Direction::Received);
    proof {
        let tv = entity_damages_view(targets@);
        let av = entity_damages_view(attackers@);
        assert forall|a: int, b: int| 0 <= a < b < targets@.len() implies (#[trigger] targets@[a]).entity@
            != (#[trigger] targets@[b]).entity@ by {
            assert(tv[a].0 != tv[b].0);
        }
        assert forall|a: int, b: int| 0 <= a < b < attackers@.len() implies (#[trigger] attackers@[a]).entity@
            != (#[trigger] attackers@[b]).entity@ by {
            assert(av[a].0 != av[b].0);
        }
    }
    let top_targets = select_top(&targets, 5);
    let top_attackers = select_top(&attackers, 5);
    proof {
        lemma_top_of_groups(es, Direction::Dealt, entity_damages_view(targets@), entity_damages_view(top_targets@), 5);
        lemma_top_of_groups(
            es,
            Direction::Received,
            entity_damages_view(attackers@),
            entity_damages_view(top_attackers@),
            5,
        );
    }
    CombatTally {
        damage_dealt: dealt,
        damage_received: received,
        duration_seconds: duration,
        event_count: events.len(),
        top_targets,
        top_attackers,
    }
}

/// The totals of a roll-up fit the integer types: the absolute amounts of
/// each direction sum to at most `i64::MAX`, and so does the span from the
/// first event to the last.
pub open spec fn tally_fits(es: Seq<DamageView>) -> bool {
    &&& abs_damage_sum(es, Direction::Dealt) <= i64::MAX
    &&& abs_damage_sum(es, Direction::Received) <= i64::MAX
    &&& es.len() > 0 ==> last_at(es) - first_at(es) <= i64::MAX
}

/// `t` is the roll-up of the events `es` (see [`tally_combat`]).
pub open spec fn tally_is(es: Seq<DamageView>, t: CombatTally) -> bool {
    &&& t.damage_dealt == dir_total(es, Direction::Dealt)
    &&& t.damage_received == dir_total(es, Direction::Received)
    &&& t.duration_seconds == span_seconds(es)
    &&& t.event_count == es.len()
    &&& top_entities(es, Direction::Dealt, entity_damages_view(t.top_targets@), 5)
    &&& top_entities(es, Direction::Received, entity_damages_view(t.top_attackers@), 5)
}

/// All the pilots' events, pilot after pilot.
pub open spec fn fleet_events(ps: Seq<(String, Vec<DamageEvent>)>) -> Seq<DamageView>
    decreases ps.len(),
{
    if ps.len() == 0 {
        seq![]
    } else {
        fleet_events(ps.drop_last()) + damages_view(ps.last().1@)
    }
}

/// Damage dealt by pilot `i`.
pub open spec fn pilot_dealt(ps: Seq<(String, Vec<DamageEvent>)>, i: int) -> int {
    dir_total(damages_view(ps[i].1@), Direction::Dealt)
}

/// Pilot `i` is listed before pilot `j`: more damage dealt, or as much and
/// earlier in the input.
pub open spec fn pilot_before(ps: Seq<(String, Vec<DamageEvent>)>, i: int, j: int) -> bool {
    pilot_dealt(ps, i) > pilot_dealt(ps, j) || (pilot_dealt(ps, i) == pilot_dealt(ps, j) && i < j)
}

/// `order` lists each pilot index once, in the listing order.
pub open spec fn is_pilot_order(ps: Seq<(String, Vec<DamageEvent>)>, order: Seq<usize>) -> bool {
    &&& order.len() == ps.len()
    &&& forall|k: int| 0 <= k < order.len() ==> order[k] < ps.len()
    &&& forall|a: int, b: int| 0 <= a < b < order.len() ==> #[trigger] pilot_before(ps, order[a] as int, order[b] as int)
}

/// Sum over the pilots of the damage each logged in direction `d`.
pub open spec fn pilots_total(ps: Seq<(String, Vec<DamageEvent>)>, d: Direction) -> int
    decreases ps.len(),
{
    if ps.len() == 0 {
        0
    } else {
        pilots_total(ps.drop_last(), d) + dir_total(damages_view(ps.last().1@), d)
    }
}

proof fn lemma_dir_total_concat(a: Seq<DamageView>, b: Seq<DamageView>, d: Direction)
    ensures
        dir_total(a + b, d) == dir_total(a, d) + dir_total(b, d),
    decreases b.len(),
{
    if b.len() == 0 {
        assert(a + b =~= a);
    } else {
        lemma_dir_total_concat(a, b.drop_last(), d);
        assert((a + b).drop_last() =~= a + b.drop_last());
        assert((a + b).last() == b.last());
    }
}

/// The fleet's damage in either direction is the sum of what each pilot
/// logged.
pub proof fn lemma_fleet_damage_is_sum_of_pilots(ps: Seq<(String, Vec<DamageEvent>)>, d: Direction)
    ensures
        dir_total(fleet_events(ps), d) == pilots_total(ps, d),
    decreases ps.len(),
{
    if ps.len() > 0 {
        lemma_fleet_damage_is_sum_of_pilots(ps.drop_last(), d);
        lemma_dir_total_concat(fleet_events(ps.drop_last()), damages_view(ps.last().1@), d);
    }
}

/// A copy of a damage event.
fn copy_event(e: &DamageEvent) -> (r: DamageEvent)
    ensures
        damage_view(r) == damage_view(*e),
{
    DamageEvent {
        at: e.at,
        amount: e.amount,
        direction: e.direction,
        entity: e.entity.clone(),
        quality: e.quality.clone(),
    }
}

/// Combines several pilots' combat logs: each pilot keeps a roll-up of
/// their own events (listed most damage dealt first, ties in input order),
/// and the fleet totals, span and top entities are taken over all events
/// together, so the fleet's rate is over the whole engagement.
pub fn merge_fleet_tally(pilots: &[(String, Vec<DamageEvent>)]) -> (r: FleetTally)
    requires
        tally_fits(fleet_events(pilots@)),
        forall|i: int| 0 <= i < pilots@.len() ==> tally_fits(damages_view((#[trigger] pilots@[i]).1@)),
    ensures
        r.pilots@.len() == pilots@.len(),
        exists|order: Seq<usize>|
            is_pilot_order(pilots@, order) && forall|i: int|
                0 <= i < order.len() ==> (#[trigger] r.pilots@[i]).name@ == pilots@[order[i] as int].0@
                    && tally_is(damages_view(pilots@[order[i] as int].1@), r.pilots@[i].tally),
        r.damage_dealt == dir_total(fleet_events(pilots@), Direction::Dealt),
        r.damage_received == dir_total(fleet_events(pilots@), Direction::Received),
        r.duration_seconds == span_seconds(fleet_events(pilots@)),
        top_entities(fleet_events(pilots@), Direction::Dealt, entity_damages_view(r.top_targets@), 5),
        top_entities(fleet_events(pilots@), Direction::Received, entity_damages_view(r.top_attackers@), 5),
{
    let ghost ps = pilots@;
    let n = pilots.len();
    let mut dealt: Vec<i64> = Vec::new();
    let mut all: Vec<DamageEvent> = Vec::new();
    let mut i: usize = 0;
    assert(damages_view(all@) =~= seq![]);
    while i < n
        invariant
            ps == pilots@,
            n == ps.len(),
            i <= n,
            dealt@.len() == i,
            forall|k: int| 0 <= k < i ==> dealt@[k] == #[trigger] pilot_dealt(ps, k),
            forall|k: int| 0 <= k < ps.len() ==> tally_fits(damages_view((#[trigger] ps[k]).1@)),
            damages_view(all@) == fleet_events(ps.take(i as int)),
        decreases n - i,
    {
        let t = tally_combat(pilots[i].1.as_slice());
        dealt.push(t.damage_dealt);
        let evs = &pilots[i].1;
        let ghost before = damages_view(all@);
        let mut j: usize = 0;
        while j < evs.len()
            invariant
                j <= evs@.len(),
                damages_view(all@) == before + damages_view(evs@).take(j as int),
            decreases evs@.len() - j,
        {
            let ghost av = damages_view(all@);
            all.push(copy_event(&evs[j]));
            assert(damages_view(all@) =~= av.push(damage_view(evs@[j as int])));
            assert(damages_view(evs@).take(j + 1) =~= damages_view(evs@).take(j as int).push(damage_view(evs@[j as int])));
            j += 1;
        }
        proof {
            assert(damages_view(evs@).take(evs@.len() as int) =~= damages_view(evs@));
            assert(ps.take(i + 1).drop_last() =~= ps.take(i as int));
            assert(ps.take(i + 1).last() == ps[i as int]);
        }
        i += 1;
    }
    assert(ps.take(n as int) =~= ps);
    let mut order: Vec<usize> = Vec::new();
    let mut m: usize = 0;
    while m < n
        invariant
            ps == pilots@,
            n == ps.len(),
            m <= n,
            dealt@.len() == n,
            forall|k: int| 0 <= k < n ==> dealt@[k] == #[trigger] pilot_dealt(ps, k),
            order@.len() == m,
            forall|k: int| 0 <= k < order@.len() ==> order@[k] < m,
            forall|a: int, b: int|
                0 <= a < b < order@.len() ==> #[trigger] pilot_before(ps, order@[a] as int, order@[b] as int),
        decreases n - m,
    {
        let mut p: usize = 0;
        while p < order.len()
            invariant
                order@.len() == m,
                m < n,
                dealt@.len() == n,
                forall|k: int| 0 <= k < order@.len() ==> order@[k] < m,
                p <= order@.len(),
                forall|a: int| 0 <= a < p ==> dealt@[m as int] <= #[trigger] dealt@[order@[a] as int],
            ensures
                p <= order@.len(),
                forall|a: int| 0 <= a < p ==> dealt@[m as int] <= #[trigger] dealt@[order@[a] as int],
                p < order@.len() ==> dealt@[m as int] > dealt@[order@[p as int] as int],
            decreases order@.len() - p,
        {
            if dealt[m] > dealt[order[p]] {
                break;
            }
            p += 1;
        }
        let ghost old_o = order@;
        order.insert(p, m);
        proof {
            assert forall|a: int, b: int| 0 <= a < b < order@.len() implies #[trigger] pilot_before(
                ps,
                order@[a] as int,
                order@[b] as int,
            ) by {
                if b < p {
                    assert(order@[a] == old_o[a] && order@[b] == old_o[b]);
                    assert(pilot_before(ps, old_o[a] as int, old_o[b] as int));
                } else if b == p {
                    assert(order@[a] == old_o[a]);
                    assert(dealt@[m as int] <= dealt@[old_o[a] as int]);
                } else if a == p {
                    assert(order@[b] == old_o[b - 1]);
                    if b - 1 > p {
                        assert(pilot_before(ps, old_o[p as int] as int, old_o[b - 1] as int));
                    }
                } else if a < p {
                    assert(order@[a] == old_o[a] && order@[b] == old_o[b - 1]);
                    assert(pilot_before(ps, old_o[a] as int, old_o[b - 1] as int));
                } else {
                    assert(order@[a] == old_o[a - 1] && order@[b] == old_o[b - 1]);
                    assert(pilot_before(ps, old_o[a - 1] as int, old_o[b - 1] as int));
                }
            }
            assert forall|k: int| 0 <= k < order@.len() implies order@[k] < m + 1 by {
                if k < p {
                    assert(order@[k] == old_o[k]);
                } else if k > p {
                    assert(order@[k] == old_o[k - 1]);
                }
            }
        }
        m += 1;
    }
    let mut listed: Vec<FleetPilotTally> = Vec::new();
    let mut q: usize = 0;
    while q < n
        invariant
            ps == pilots@,
            n == ps.len(),
            is_pilot_order(ps, order@),
            forall|k: int| 0 <= k < ps.len() ==> tally_fits(damages_view((#[trigger] ps[k]).1@)),
            q <= n,
            listed@.len() == q,
            forall|i: int|
                0 <= i < q ==> (#[trigger] listed@[i]).name@ == ps[order@[i] as int].0@ && tally_is(
                    damages_view(ps[order@[i] as int].1@),
                    listed@[i].tally,
                ),
        decreases n - q,
    {
        let k = order[q];
        let t = tally_combat(pilots[k].1.as_slice());
        listed.push(FleetPilotTally { name: pilots[k].0.clone(), tally: t });
        q += 1;
    }
    let fleet = tally_combat(all.as_slice());
    FleetTally {
        pilots: listed,
        damage_dealt: fleet.damage_dealt,
        damage_received: fleet.damage_received,
        duration_seconds: fleet.duration_seconds,
        top_targets: fleet.top_targets,
        top_attackers: fleet.top_attackers,
    }
}

} // verus!
