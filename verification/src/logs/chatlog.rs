//! Local chat intel from a chatlog: who has spoken, and the current system.
//!
//! Chat lines look like `[ 2024.01.15 12:35:10 ] Some Pilot > message`. The
//! system messenger "EVE System" announces the system on entry
//! (`Channel changed to Local : Jita`). A pilot who talks in Local is there
//! right now, which is the signal kept.

use vstd::prelude::*;
use crate::logs::{split_ts_spec, split_timestamp};
use crate::text::{
    trim, trim_bounds, find_char, lemma_find_char_is, rfind, rfind_in, lines, line_bounds, chars_of,
    slice_chars, str_eq, range_eq, string_from_chars,
};

verus! {

/// The sender name of the system messenger (not a pilot).
pub const EVE_SYSTEM: &'static str = "EVE System";

/// One parsed chat line.
#[derive(Debug, Clone, PartialEq)]
pub struct ChatLine {
    /// When it was said (Unix seconds, the log's clock read as UTC).
    pub at: i64,
    pub sender: String,
    pub message: String,
}

/// Local-channel intel derived from a chatlog.
#[derive(Debug, Clone, PartialEq)]
pub struct LocalIntel {
    /// Current system, from the latest "Channel changed to Local : X" line.
    pub system: Option<String>,
    /// Distinct pilots who spoke, most recent first (never "EVE System").
    pub speakers: Vec<String>,
    pub line_count: usize,
}

/// The `(time, sender, message)` of a chat line `[ ts ] Sender > message`:
/// the sender is the trimmed text before the first `>` (and must not be
/// blank), the message the trimmed text after it.
pub open spec fn chat_line_spec(line: Seq<char>) -> Option<(i64, Seq<char>, Seq<char>)> {
    match split_ts_spec(line) {
        None => None,
        Some((at, rest)) => {
            let k = find_char(rest, '>');
            if k >= rest.len() || trim(rest.take(k as int)).len() == 0 {
                None
            } else {
                Some((at, trim(rest.take(k as int)), trim(rest.skip(k as int + 1))))
            }
        },
    }
}

/// The chat lines of `text`, in order, other lines skipped.
pub open spec fn chat_lines_spec(ls: Seq<Seq<char>>) -> Seq<(i64, Seq<char>, Seq<char>)>
    decreases ls.len(),
{
    if ls.len() == 0 {
        seq![]
    } else {
        let prev = chat_lines_spec(ls.drop_last());
        match chat_line_spec(ls.last()) {
            Some(c) => prev.push(c),
            None => prev,
        }
    }
}

/// `s` without the entries equal to `x`.
pub open spec fn without(s: Seq<Seq<char>>, x: Seq<char>) -> Seq<Seq<char>>
    decreases s.len(),
{
    if s.len() == 0 {
        seq![]
    } else if s.last() == x {
        without(s.drop_last(), x)
    } else {
        without(s.drop_last(), x).push(s.last())
    }
}

/// The system a system-messenger message names: the trimmed text after its
/// last `:`, if not blank.
pub open spec fn announced_system(message: Seq<char>) -> Option<Seq<char>> {
    match rfind(message, seq![':']) {
        Some(i) => if trim(message.skip(i + 1)).len() > 0 {
            Some(trim(message.skip(i + 1)))
        } else {
            None
        },
        None => None,
    }
}

/// `(current system, speakers most recent first)` after the chat lines `cs`.
pub open spec fn local_spec(cs: Seq<(i64, Seq<char>, Seq<char>)>) -> (Option<Seq<char>>, Seq<Seq<char>>)
    decreases cs.len(),
{
    if cs.len() == 0 {
        (None, seq![])
    } else {
        let prev = local_spec(cs.drop_last());
        let c = cs.last();
        if c.1 == EVE_SYSTEM@ {
            (
                match announced_system(c.2) {
                    Some(s) => Some(s),
                    None => prev.0,
                },
                prev.1,
            )
        } else {
            (prev.0, seq![c.1] + without(prev.1, c.1))
        }
    }
}

/// A parsed chat line as `(time, sender, message)`.
pub open spec fn chat_view(c: ChatLine) -> (i64, Seq<char>, Seq<char>) {
    (c.at, c.sender@, c.message@)
}

/// Parsed chat lines as `(time, sender, message)`.
pub open spec fn chats_view(v: Seq<ChatLine>) -> Seq<(i64, Seq<char>, Seq<char>)> {
    v.map_values(|c: ChatLine| chat_view(c))
}

/// The texts of a list of strings.
pub open spec fn strings_view(v: Seq<String>) -> Seq<Seq<char>> {
    v.map_values(|s: String| s@)
}

/// Whether `system` and `speakers` are the state `st`.
pub open spec fn state_is(system: Option<String>, speakers: Seq<String>, st: (Option<Seq<char>>, Seq<Seq<char>>)) -> bool {
    &&& match system {
        Some(s) => st.0 == Some(s@),
        None => st.0 is None,
    }
    &&& strings_view(speakers) == st.1
}

/// Whether `intel` reports the state `st` (current system, speakers).
pub open spec fn reports(intel: LocalIntel, st: (Option<Seq<char>>, Seq<Seq<char>>)) -> bool {
    state_is(intel.system, intel.speakers@, st)
}

/// The chat line `s[a..b]` (see [`chat_line_spec`]).
fn chat_line_in(s: &Vec<char>, a: usize, b: usize) -> (r: Option<ChatLine>)
    requires
        a <= b <= s.len(),
    ensures
        match r {
            Some(c) => chat_line_spec(s@.subrange(a as int, b as int)) == Some(chat_view(c)),
            None => chat_line_spec(s@.subrange(a as int, b as int)) is None,
        },
{
    let (at, k) = match split_timestamp(s, a, b) {
        Some(x) => x,
        None => {
            return None;
        },
    };
    let ghost rest = s@.subrange(k as int, b as int);
    let mut j = k;
    while j < b && s[j] != '>'
        invariant
            k <= j <= b <= s.len(),
            forall|m: int| k <= m < j ==> s@[m] != '>',
        decreases b - j,
    {
        j += 1;
    }
    proof {
        assert forall|m: int| 0 <= m < j - k implies rest[m] != '>' by {
            assert(rest[m] == s@[k + m]);
        }
        if j < b {
            assert(rest[j - k] == s@[j as int]);
        }
        lemma_find_char_is(rest, '>', j - k);
        assert(rest.take(j - k) =~= s@.subrange(k as int, j as int));
    }
    if j == b {
        return None;
    }
    let (sa, sb) = trim_bounds(s, k, j);
    if sa == sb {
        return None;
    }
    let (ma, mb) = trim_bounds(s, j + 1, b);
    assert(rest.skip(j - k + 1) =~= s@.subrange(j + 1, b as int));
    Some(ChatLine {
        at,
        sender: string_from_chars(slice_chars(s, sa, sb).as_slice()),
        message: string_from_chars(slice_chars(s, ma, mb).as_slice()),
    })
}

/// Parses one chat line `[ timestamp ] Sender > message`; `None` when the
/// line has no valid timestamp, no `>`, or a blank sender.
pub fn parse_chat_line(line: &str) -> (r: Option<ChatLine>)
    ensures
        match r {
            Some(c) => chat_line_spec(line@) == Some(chat_view(c)),
            None => chat_line_spec(line@) is None,
        },
{
    let s = chars_of(line);
    assert(s@.subrange(0, s@.len() as int) =~= s@);
    chat_line_in(&s, 0, s.len())
}

/// The system the message `m` announces (see [`announced_system`]).
fn announced(m: &str) -> (r: Option<String>)
    ensures
        match r {
            Some(x) => announced_system(m@) == Some(x@),
            None => announced_system(m@) is None,
        },
{
    let s = chars_of(m);
    let colon = vec![':'];
    assert(colon@ =~= seq![':']);
    assert(s@.subrange(0, s@.len() as int) =~= s@);
    match rfind_in(&s, 0, s.len(), &colon) {
        Some(i) => {
            let (a, b) = trim_bounds(&s, i + 1, s.len());
            assert(s@.skip(i + 1) =~= s@.subrange(i + 1, s@.len() as int));
            if a < b {
                Some(string_from_chars(slice_chars(&s, a, b).as_slice()))
            } else {
                None
            }
        },
        None => None,
    }
}

/// Reduces parsed chat lines to the current system (from the latest
/// announcement by the system messenger) and the pilots who spoke, most
/// recent first, each once.
pub fn summarize_chat_lines(lines: &[ChatLine]) -> (r: LocalIntel)
    ensures
        reports(r, local_spec(chats_view(lines@))),
        r.line_count == lines@.len(),
{
    let ghost cs = chats_view(lines@);
    let mut system: Option<String> = None;
    let mut speakers: Vec<String> = Vec::new();
    let mut k: usize = 0;
    assert(cs.take(0) =~= seq![]);
    assert(strings_view(speakers@) =~= seq![]);
    while k < lines.len()
        invariant
            cs == chats_view(lines@),
            k <= lines@.len(),
            state_is(system, speakers@, local_spec(cs.take(k as int))),
        decreases lines@.len() - k,
    {
        let c = &lines[k];
        proof {
            assert(cs.take(k + 1).drop_last() =~= cs.take(k as int));
            assert(cs.take(k + 1).last() == chat_view(*c));
        }
        if str_eq(c.sender.as_str(), EVE_SYSTEM) {
            if let Some(sys) = announced(c.message.as_str()) {
                system = Some(sys);
            }
        } else {
            let ghost before = strings_view(speakers@);
            let mut kept: Vec<String> = Vec::new();
            kept.push(c.sender.clone());
            let mut i: usize = 0;
            while i < speakers.len()
                invariant
                    i <= speakers@.len(),
                    before == strings_view(speakers@),
                    strings_view(kept@) == seq![c.sender@] + without(before.take(i as int), c.sender@),
                decreases speakers@.len() - i,
            {
                assert(before.take(i + 1).drop_last() =~= before.take(i as int));
                assert(before.take(i + 1).last() == speakers@[i as int]@);
                if !str_eq(speakers[i].as_str(), c.sender.as_str()) {
                    let ghost kv = strings_view(kept@);
                    kept.push(speakers[i].clone());
                    assert(strings_view(kept@) =~= kv.push(speakers@[i as int]@));
                }
                i += 1;
            }
            assert(before.take(speakers@.len() as int) =~= before);
            speakers = kept;
        }
        k += 1;
    }
    assert(cs.take(lines@.len() as int) =~= cs);
    LocalIntel { system, speakers, line_count: lines.len() }
}

/// Parses the chat lines of a chatlog, in order, skipping other lines.
#[verifier::rlimit(40)]
pub fn parse_chat_lines(text: &str) -> (r: Vec<ChatLine>)
    ensures
        chats_view(r@) == chat_lines_spec(lines(text@)),
{
    let s = chars_of(text);
    let lb = line_bounds(&s);
    let ghost ls = lines(s@);
    let mut out: Vec<ChatLine> = Vec::new();
    let mut k: usize = 0;
    while k < lb.len()
        invariant
            s@ == text@,
            ls == lines(s@),
            lb@.len() == ls.len(),
            forall|i: int| #![trigger lb@[i]] 0 <= i < lb@.len() ==> lb@[i].0 <= lb@[i].1 && lb@[i].1 <= s@.len(),
            forall|i: int| 0 <= i < lb@.len() ==> s@.subrange(lb@[i].0 as int, lb@[i].1 as int) == #[trigger] ls[i],
            k <= lb@.len(),
            chats_view(out@) == chat_lines_spec(ls.take(k as int)),
        decreases lb@.len() - k,
    {
        let (a, b) = lb[k];
        proof {
            assert(ls.take(k + 1).drop_last() =~= ls.take(k as int));
            assert(ls.take(k + 1).last() == ls[k as int]);
        }
        if let Some(c) = chat_line_in(&s, a, b) {
            let ghost before = out@;
            out.push(c);
            assert(chats_view(out@) =~= chats_view(before).push(chat_view(c)));
        }
        k += 1;
    }
    assert(ls.take(lb@.len() as int) =~= ls);
    out
}

/// Reduces a Local chatlog to its current system and the pilots who have
/// spoken, most recent first; lines that are not chat lines are skipped and
/// not counted.
pub fn summarize_local(text: &str) -> (r: LocalIntel)
    ensures
        reports(r, local_spec(chat_lines_spec(lines(text@)))),
        r.line_count == chat_lines_spec(lines(text@)).len(),
{
    let parsed = parse_chat_lines(text);
    summarize_chat_lines(parsed.as_slice())
}

/// The system messenger never appears among the speakers.
pub proof fn lemma_system_messenger_never_speaks(cs: Seq<(i64, Seq<char>, Seq<char>)>)
    ensures
        !local_spec(cs).1.contains(EVE_SYSTEM@),
    decreases cs.len(),
{
    if cs.len() > 0 {
        lemma_system_messenger_never_speaks(cs.drop_last());
        let prev = local_spec(cs.drop_last());
        let c = cs.last();
        if c.1 != EVE_SYSTEM@ {
            lemma_without_drops(prev.1, c.1, EVE_SYSTEM@);
            let n = seq![c.1] + without(prev.1, c.1);
            if n.contains(EVE_SYSTEM@) {
                let i = choose|i: int| 0 <= i < n.len() && n[i] == EVE_SYSTEM@;
                if i > 0 {
                    assert(without(prev.1, c.1)[i - 1] == EVE_SYSTEM@);
                }
            }
        }
    }
}

/// Speakers are listed once each.
pub proof fn lemma_speakers_distinct(cs: Seq<(i64, Seq<char>, Seq<char>)>)
    ensures
        local_spec(cs).1.no_duplicates(),
    decreases cs.len(),
{
    if cs.len() > 0 {
        lemma_speakers_distinct(cs.drop_last());
        let prev = local_spec(cs.drop_last());
        let c = cs.last();
        if c.1 != EVE_SYSTEM@ {
            lemma_without_distinct(prev.1, c.1);
            let w = without(prev.1, c.1);
            let n = seq![c.1] + w;
            assert forall|i: int, j: int| 0 <= i < n.len() && 0 <= j < n.len() && i != j implies n[i] != n[j] by {
                if i == 0 {
                    lemma_without_drops(prev.1, c.1, c.1);
                    assert(n[j] == w[j - 1]);
                    if w[j - 1] == c.1 {
                        assert(w.contains(c.1));
                    }
                } else if j == 0 {
                    lemma_without_drops(prev.1, c.1, c.1);
                    assert(n[i] == w[i - 1]);
                    if w[i - 1] == c.1 {
                        assert(w.contains(c.1));
                    }
                } else {
                    assert(n[i] == w[i - 1] && n[j] == w[j - 1]);
                }
            }
        }
    }
}

proof fn lemma_without_drops(s: Seq<Seq<char>>, x: Seq<char>, y: Seq<char>)
    ensures
        without(s, x).contains(y) ==> s.contains(y) && y != x,
    decreases s.len(),
{
    if s.len() > 0 {
        let d = s.drop_last();
        lemma_without_drops(d, x, y);
        if without(s, x).contains(y) {
            let w = without(s, x);
            let i = choose|i: int| 0 <= i < w.len() && w[i] == y;
            if s.last() == x {
                assert(without(d, x).contains(y));
                let m = choose|m: int| 0 <= m < d.len() && d[m] == y;
                assert(s[m] == y);
            } else if i < w.len() - 1 {
                assert(without(d, x)[i] == y);
                assert(without(d, x).contains(y));
                let m = choose|m: int| 0 <= m < d.len() && d[m] == y;
                assert(s[m] == y);
            } else {
                assert(s[s.len() - 1] == y);
            }
        }
    }
}

proof fn lemma_without_distinct(s: Seq<Seq<char>>, x: Seq<char>)
    requires
        s.no_duplicates(),
    ensures
        without(s, x).no_duplicates(),
    decreases s.len(),
{
    if s.len() > 0 {
        let d = s.drop_last();
        assert(d.no_duplicates()) by {
            assert forall|i: int, j: int| 0 <= i < d.len() && 0 <= j < d.len() && i != j implies d[i] != d[j] by {
                assert(d[i] == s[i] && d[j] == s[j]);
            }
        }
        lemma_without_distinct(d, x);
        if s.last() != x {
            let w = without(d, x);
            lemma_without_drops(d, x, s.last());
            if d.contains(s.last()) {
                let m = choose|m: int| 0 <= m < d.len() && d[m] == s.last();
                assert(s[m] == s[s.len() - 1]);
            }
            let n = w.push(s.last());
            assert forall|i: int, j: int| 0 <= i < n.len() && 0 <= j < n.len() && i != j implies n[i] != n[j] by {
                if i == w.len() {
                    assert(n[j] == w[j]);
                    if w[j] == s.last() {
                        assert(w.contains(s.last()));
                    }
                } else if j == w.len() {
                    assert(n[i] == w[i]);
                    if w[i] == s.last() {
                        assert(w.contains(s.last()));
                    }
                }
            }
        }
    }
}

} // verus!
