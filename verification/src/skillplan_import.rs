//! Skill plans from other tools.
//!
//! Two shapes are understood, by a light and tolerant scan:
//! - EVEMon plan exports: `<entry skill="Caldari Cruiser" level="4" .../>`;
//! - plain text, one skill per line, the level as a Roman numeral or a digit:
//!   `Caldari Cruiser V`, `Hull Upgrades 4`, `Shield Management - III`.
//!
//! The result is `(skill name, level)` pairs; a skill named twice keeps the
//! highest level asked for.

use vstd::prelude::*;
use crate::text::{
    lines, line_bounds, trim, trim_bounds, ascii_upper_seq, ascii_upper_range, strip_non_alnum, ascii_lower_seq,
    strip_non_alnum_bounds, find_seq, find_in, lemma_find_seq, contains_seq, find_char,
    lemma_find_char, lemma_find_char_is, rfind, rfind_in, last_ws, last_ws_in, chars_of,
    slice_chars, append_chars, range_eq, string_from_chars,
};
use crate::tally::{Tally, TallyRule, all_positive, merge_all, merge_entry, lemma_merge_step};

verus! {

/// One imported target: a skill name and the level to train to (1 to 5).
#[derive(Debug, Clone, PartialEq)]
pub struct ImportedSkill {
    pub name: String,
    pub level: i64,
}

/// The level a bare token names: `I`..`V` (any ASCII case) or `1`..`5`.
pub open spec fn level_spec(t: Seq<char>) -> Option<i64> {
    let u = ascii_upper_seq(t);
    if u == "I"@ || u == "1"@ {
        Some(1)
    } else if u == "II"@ || u == "2"@ {
        Some(2)
    } else if u == "III"@ || u == "3"@ {
        Some(3)
    } else if u == "IV"@ || u == "4"@ {
        Some(4)
    } else if u == "V"@ || u == "5"@ {
        Some(5)
    } else {
        None
    }
}

/// The Roman numeral of level `k` (1 to 5).
pub open spec fn roman_numeral(k: int) -> Seq<char> {
    seq!["I"@, "II"@, "III"@, "IV"@, "V"@][k - 1]
}

/// The digit of level `k` (1 to 5).
pub open spec fn level_digit(k: int) -> Seq<char> {
    seq!["1"@, "2"@, "3"@, "4"@, "5"@][k - 1]
}

/// Every level from 1 to 5 is named by its Roman numeral, in upper or lower
/// case, and by its digit; and a token names a level only if it is one of
/// these, so the level is always 1 to 5.
pub proof fn lemma_level_names(t: Seq<char>, k: int)
    ensures
        1 <= k <= 5 ==> level_spec(roman_numeral(k)) == Some(k as i64),
        1 <= k <= 5 ==> level_spec(level_digit(k)) == Some(k as i64),
        1 <= k <= 5 ==> level_spec(ascii_lower_seq(roman_numeral(k))) == Some(k as i64),
        level_spec(t) matches Some(l) ==> 1 <= l <= 5 && (ascii_upper_seq(t) == roman_numeral(l as int)
            || ascii_upper_seq(t) == level_digit(l as int)),
{
    reveal_strlit("I");
    reveal_strlit("II");
    reveal_strlit("III");
    reveal_strlit("IV");
    reveal_strlit("V");
    reveal_strlit("1");
    reveal_strlit("2");
    reveal_strlit("3");
    reveal_strlit("4");
    reveal_strlit("5");
    if 1 <= k <= 5 {
        let r = roman_numeral(k);
        let d = level_digit(k);
        assert(ascii_upper_seq(r) =~= r);
        assert(ascii_upper_seq(d) =~= d);
        assert(ascii_upper_seq(ascii_lower_seq(r)) =~= r);
        assert("I"@[0] != "V"@[0] && "I"@[0] != "1"@[0] && "V"@[0] != "1"@[0] && "II"@[1] != "IV"@[1]);
        assert("2"@[0] != "1"@[0] && "3"@[0] != "1"@[0] && "4"@[0] != "1"@[0] && "5"@[0] != "1"@[0]);
        assert("3"@[0] != "2"@[0] && "4"@[0] != "2"@[0] && "5"@[0] != "2"@[0]);
        assert("4"@[0] != "3"@[0] && "5"@[0] != "3"@[0] && "5"@[0] != "4"@[0]);
        assert("V"@[0] != "5"@[0] && "V"@[0] != "4"@[0] && "V"@[0] != "3"@[0] && "V"@[0] != "2"@[0]);
        assert("I"@[0] != "2"@[0] && "I"@[0] != "3"@[0] && "I"@[0] != "4"@[0] && "I"@[0] != "5"@[0]);
        if k == 1 {
        } else if k == 2 {
        } else if k == 3 {
        } else if k == 4 {
        } else {
        }
    }
}

/// The level a token names once trimmed of whitespace and of
/// non-alphanumeric characters at both ends.
pub open spec fn parse_level_spec(token: Seq<char>) -> Option<i64> {
    level_spec(strip_non_alnum(trim(token)))
}

/// The value of the attribute `attr="..."` (or single-quoted) at its first
/// `attr=` in `line`.
pub open spec fn xml_attr_spec(line: Seq<char>, attr: Seq<char>) -> Option<Seq<char>> {
    let key = attr.push('=');
    match find_seq(line, key) {
        None => None,
        Some(i) => {
            let rest = line.skip(i + key.len());
            if rest.len() == 0 || (rest[0] != '"' && rest[0] != '\'') {
                None
            } else {
                let body = rest.drop_first();
                let e = find_char(body, rest[0]);
                if e < body.len() {
                    Some(body.take(e as int))
                } else {
                    None
                }
            }
        },
    }
}

/// The skill an EVEMon `<entry .../>` line names, if the line is one with a
/// non-blank `skill` and a valid `level`.
pub open spec fn evemon_spec(line: Seq<char>) -> Option<(Seq<char>, int)> {
    if !contains_seq(line, "<entry"@) {
        None
    } else {
        match xml_attr_spec(line, "skill"@) {
            None => None,
            Some(n) => match xml_attr_spec(line, "level"@) {
                None => None,
                Some(lv) => match parse_level_spec(lv) {
                    None => None,
                    Some(l) => if trim(n).len() == 0 {
                        None
                    } else {
                        Some((trim(n), l as int))
                    },
                },
            },
        }
    }
}

/// A plain-text line prepared for splitting: trimmed, a ` - ` before the
/// level read as a space; none for blank lines and lines starting with `<`
/// or `#`.
pub open spec fn text_core(raw: Seq<char>) -> Option<Seq<char>> {
    let line = trim(raw);
    if line.len() == 0 || line[0] == '<' || line[0] == '#' {
        None
    } else {
        Some(
            match rfind(line, seq![' ', '-', ' ']) {
                Some(i) => line.take(i) + seq![' '] + line.skip(i + 3),
                None => line,
            },
        )
    }
}

/// The skill a prepared line names: its last whitespace-separated token is
/// the level, the trimmed text before it the name (which must not be
/// blank).
pub open spec fn core_skill(core: Seq<char>) -> Option<(Seq<char>, int)> {
    match last_ws(core) {
        None => None,
        Some(k) => match parse_level_spec(core.skip(k + 1)) {
            None => None,
            Some(l) => if trim(core.take(k)).len() == 0 {
                None
            } else {
                Some((trim(core.take(k)), l as int))
            },
        },
    }
}

/// The skill a plain-text line names.
pub open spec fn text_line_spec(raw: Seq<char>) -> Option<(Seq<char>, int)> {
    match text_core(raw) {
        None => None,
        Some(core) => core_skill(core),
    }
}

/// The skill a plan line names: as an EVEMon entry, else as plain text.
pub open spec fn plan_entry(line: Seq<char>) -> Option<(Seq<char>, int)> {
    match evemon_spec(line) {
        Some(e) => Some(e),
        None => text_line_spec(line),
    }
}

/// Skills match ignoring ASCII case; a repeat keeps the higher level.
pub open spec fn plan_rule() -> TallyRule {
    TallyRule { fold_case: true, keep_max: true }
}

/// The skill (if any) of each line of `text`.
pub open spec fn plan_entries(text: Seq<char>) -> Seq<Option<(Seq<char>, int)>> {
    lines(text).map_values(|l: Seq<char>| plan_entry(l))
}

/// The targets a plan holds, first-seen order, each at the highest level
/// asked for.
pub open spec fn plan_spec(text: Seq<char>) -> Seq<(Seq<char>, int)> {
    merge_all(seq![], plan_entries(text), plan_rule())
}

/// The `(name, level)` pairs of imported targets.
pub open spec fn plan_view(v: Seq<ImportedSkill>) -> Seq<(Seq<char>, int)> {
    v.map_values(|k: ImportedSkill| (k.name@, k.level as int))
}

proof fn lemma_level_range(t: Seq<char>)
    ensures
        level_spec(t) matches Some(l) ==> 1 <= l <= 5,
{
}

proof fn lemma_entry_range(line: Seq<char>)
    ensures
        plan_entry(line) matches Some(e) ==> 1 <= e.1 <= 5,
{
    match text_core(line) {
        Some(core) => match last_ws(core) {
            Some(k) => lemma_level_range(strip_non_alnum(trim(core.skip(k + 1)))),
            None => {},
        },
        None => {},
    }
    match xml_attr_spec(line, "level"@) {
        Some(lv) => lemma_level_range(strip_non_alnum(trim(lv))),
        None => {},
    }
}

/// Whether `u` holds exactly the characters of `w`.
fn is_word(u: &Vec<char>, w: &str) -> (r: bool)
    ensures
        r == (u@ == w@),
{
    let v = chars_of(w);
    let r = range_eq(u, 0, u.len(), &v, 0, v.len());
    assert(u@.subrange(0, u@.len() as int) =~= u@);
    assert(v@.subrange(0, v@.len() as int) =~= v@);
    r
}

/// The level the bare token `s[a..b]` names (see [`level_spec`]).
fn level_in(s: &Vec<char>, a: usize, b: usize) -> (r: Option<i64>)
    requires
        a <= b <= s.len(),
    ensures
        r == level_spec(s@.subrange(a as int, b as int)),
{
    let u = ascii_upper_range(s, a, b);
    if is_word(&u, "I") || is_word(&u, "1") {
        Some(1)
    } else if is_word(&u, "II") || is_word(&u, "2") {
        Some(2)
    } else if is_word(&u, "III") || is_word(&u, "3") {
        Some(3)
    } else if is_word(&u, "IV") || is_word(&u, "4") {
        Some(4)
    } else if is_word(&u, "V") || is_word(&u, "5") {
        Some(5)
    } else {
        None
    }
}

/// The level a bare token names: `I`..`V` in any ASCII case, or `1`..`5`.
pub fn level_of_token(token: &str) -> (r: Option<i64>)
    ensures
        r == level_spec(token@),
{
    let s = chars_of(token);
    assert(s@.subrange(0, s@.len() as int) =~= s@);
    level_in(&s, 0, s.len())
}

/// The level the token `s[a..b]` names (see [`parse_level_spec`]).
fn parse_level_in(s: &Vec<char>, a: usize, b: usize) -> (r: Option<i64>)
    requires
        a <= b <= s.len(),
    ensures
        r == parse_level_spec(s@.subrange(a as int, b as int)),
{
    let (ta, tb) = trim_bounds(s, a, b);
    let (xa, xb) = strip_non_alnum_bounds(s, ta, tb);
    level_in(s, xa, xb)
}

/// Parses a Roman numeral (I to V) or a digit (1 to 5) into a level, after
/// trimming whitespace and non-alphanumeric characters from both ends;
/// `None` for anything else.
pub fn parse_level(token: &str) -> (r: Option<i64>)
    ensures
        r == parse_level_spec(token@),
{
    let s = chars_of(token);
    assert(s@.subrange(0, s@.len() as int) =~= s@);
    parse_level_in(&s, 0, s.len())
}

/// Bounds of the value of attribute `attr` in the line `s[a..b]` (see
/// [`xml_attr_spec`]).
fn xml_attr(s: &Vec<char>, a: usize, b: usize, attr: &str) -> (r: Option<(usize, usize)>)
    requires
        a <= b <= s.len(),
    ensures
        match r {
            Some((x, y)) => a <= x <= y <= b && xml_attr_spec(s@.subrange(a as int, b as int), attr@)
                == Some(s@.subrange(x as int, y as int)),
            None => xml_attr_spec(s@.subrange(a as int, b as int), attr@) is None,
        },
{
    let ghost line = s@.subrange(a as int, b as int);
    let mut key = chars_of(attr);
    key.push('=');
    let i = match find_in(s, a, b, &key) {
        Some(i) => i,
        None => {
            return None;
        },
    };
    let start = i + key.len();
    let ghost rest = line.skip(i - a + key@.len());
    assert(rest =~= s@.subrange(start as int, b as int));
    if start >= b {
        return None;
    }
    let q = s[start];
    assert(rest[0] == q);
    if q != '"' && q != '\'' {
        return None;
    }
    let mut j = start + 1;
    while j < b && s[j] != q
        invariant
            start < j <= b <= s.len(),
            forall|m: int| start < m < j ==> #[trigger] s@[m] != q,
        decreases b - j,
    {
        j += 1;
    }
    proof {
        let body = rest.drop_first();
        assert(body =~= s@.subrange(start + 1, b as int));
        assert forall|m: int| 0 <= m < j - start - 1 implies body[m] != q by {
            assert(body[m] == s@[start + 1 + m]);
        }
        if j < b {
            assert(body[j - start - 1] == s@[j as int]);
        }
        lemma_find_char_is(body, q, j - start - 1);
        assert(body.take(j - start - 1) =~= s@.subrange(start + 1, j as int));
    }
    if j < b {
        Some((start + 1, j))
    } else {
        None
    }
}

/// The skill an EVEMon entry line `s[a..b]` names (see [`evemon_spec`]).
fn parse_evemon_entry(s: &Vec<char>, a: usize, b: usize) -> (r: Option<(Vec<char>, i64)>)
    requires
        a <= b <= s.len(),
    ensures
        match r {
            Some((n, l)) => evemon_spec(s@.subrange(a as int, b as int)) == Some((n@, l as int)),
            None => evemon_spec(s@.subrange(a as int, b as int)) is None,
        },
{
    let ghost line = s@.subrange(a as int, b as int);
    let tag = chars_of("<entry");
    let found = find_in(s, a, b, &tag);
    proof {
        lemma_find_seq(line, tag@);
    }
    if found.is_none() {
        return None;
    }
    let (na, nb) = match xml_attr(s, a, b, "skill") {
        Some(r) => r,
        None => {
            return None;
        },
    };
    let (la, lb) = match xml_attr(s, a, b, "level") {
        Some(r) => r,
        None => {
            return None;
        },
    };
    let level = match parse_level_in(s, la, lb) {
        Some(l) => l,
        None => {
            return None;
        },
    };
    let (ta, tb) = trim_bounds(s, na, nb);
    if ta == tb {
        return None;
    }
    Some((slice_chars(s, ta, tb), level))
}

/// The prepared form of the line `s[a..b]` (see [`text_core`]).
fn line_core(s: &Vec<char>, a: usize, b: usize) -> (r: Option<Vec<char>>)
    requires
        a <= b <= s.len(),
    ensures
        match r {
            Some(c) => text_core(s@.subrange(a as int, b as int)) == Some(c@),
            None => text_core(s@.subrange(a as int, b as int)) is None,
        },
{
    let (la, lz) = trim_bounds(s, a, b);
    let ghost line = s@.subrange(la as int, lz as int);
    if la == lz {
        return None;
    }
    assert(line[0] == s@[la as int]);
    if s[la] == '<' || s[la] == '#' {
        return None;
    }
    let sep = vec![' ', '-', ' '];
    assert(sep@ =~= seq![' ', '-', ' ']);
    match rfind_in(s, la, lz, &sep) {
        Some(i) => {
            let mut c = slice_chars(s, la, i);
            c.push(' ');
            let rest = slice_chars(s, i + 3, lz);
            append_chars(&mut c, &rest);
            assert(line.take(i - la) =~= s@.subrange(la as int, i as int));
            assert(line.skip(i - la + 3) =~= s@.subrange(i + 3, lz as int));
            assert(c@ =~= line.take(i - la) + seq![' '] + line.skip(i - la + 3));
            Some(c)
        },
        None => Some(slice_chars(s, la, lz)),
    }
}

/// The skill a prepared line names (see [`core_skill`]).
fn skill_of_core(core: &Vec<char>) -> (r: Option<(Vec<char>, i64)>)
    ensures
        match r {
            Some((n, l)) => core_skill(core@) == Some((n@, l as int)),
            None => core_skill(core@) is None,
        },
{
    let n = core.len();
    assert(core@.subrange(0, n as int) =~= core@);
    let k = match last_ws_in(core, 0, n) {
        Some(k) => k,
        None => {
            return None;
        },
    };
    assert(core@.skip(k + 1) =~= core@.subrange(k + 1, n as int));
    assert(core@.take(k as int) =~= core@.subrange(0, k as int));
    let level = match parse_level_in(core, k + 1, n) {
        Some(l) => l,
        None => {
            return None;
        },
    };
    let (ta, tb) = trim_bounds(core, 0, k);
    if ta == tb {
        return None;
    }
    Some((slice_chars(core, ta, tb), level))
}

/// The skill a plain-text line `s[a..b]` names (see [`text_line_spec`]).
fn parse_text_line(s: &Vec<char>, a: usize, b: usize) -> (r: Option<(Vec<char>, i64)>)
    requires
        a <= b <= s.len(),
    ensures
        match r {
            Some((n, l)) => text_line_spec(s@.subrange(a as int, b as int)) == Some((n@, l as int)),
            None => text_line_spec(s@.subrange(a as int, b as int)) is None,
        },
{
    match line_core(s, a, b) {
        Some(core) => skill_of_core(&core),
        None => None,
    }
}

/// Parses a whole plan (EVEMon XML or plain text) into targets, first-seen
/// order; a skill named more than once (ignoring ASCII case) keeps its
/// first spelling and the highest level asked for.
pub fn parse_plan(text: &str) -> (r: Vec<ImportedSkill>)
    ensures
        plan_view(r@) == plan_spec(text@),
{
    let s = chars_of(text);
    let lb = line_bounds(&s);
    let ghost ls = lines(s@);
    let ghost es = plan_entries(s@);
    let mut t = Tally::new(TallyRule { fold_case: true, keep_max: true });
    let mut k: usize = 0;
    assert(es.skip(0) =~= es);
    while k < lb.len()
        invariant
            s@ == text@,
            ls == lines(s@),
            es == plan_entries(s@),
            lb@.len() == ls.len(),
            forall|i: int| #![trigger lb@[i]] 0 <= i < lb@.len() ==> lb@[i].0 <= lb@[i].1 && lb@[i].1 <= s@.len(),
            forall|i: int| 0 <= i < lb@.len() ==> s@.subrange(lb@[i].0 as int, lb@[i].1 as int) == #[trigger] ls[i],
            k <= lb@.len(),
            t.wf(),
            t.rule() == plan_rule(),
            plan_spec(text@) == merge_all(t.entries(), es.skip(k as int), plan_rule()),
        decreases lb@.len() - k,
    {
        let (a, b) = lb[k];
        let ghost line = ls[k as int];
        proof {
            lemma_merge_step(t.entries(), es, plan_rule(), k as int);
            assert(es[k as int] == plan_entry(line));
            lemma_entry_range(line);
        }
        let parsed = match parse_evemon_entry(&s, a, b) {
            Some(p) => Some(p),
            None => parse_text_line(&s, a, b),
        };
        if let Some((name, level)) = parsed {
            let ghost entry = (name@, level as int);
            assert(plan_entry(line) == Some(entry));
            proof {
                t.lemma_keep_max_fits(entry);
            }
            assert(name@.subrange(0, name@.len() as int) =~= name@);
            t.add(&name, 0, name.len(), level);
        }
        k += 1;
    }
    proof {
        assert(es.skip(lb@.len() as int) =~= seq![]);
    }
    let ghost cur = t.entries();
    let mut out: Vec<ImportedSkill> = Vec::new();
    let mut i: usize = 0;
    let n = t.len();
    while i < n
        invariant
            t.wf(),
            n == cur.len(),
            cur == t.entries(),
            i <= n,
            out@.len() == i,
            plan_view(out@) == cur.take(i as int),
        decreases n - i,
    {
        let name = string_from_chars(t.name_chars(i).as_slice());
        let ghost before = out@;
        out.push(ImportedSkill { name, level: t.qty(i) });
        assert forall|m: int| 0 <= m < i + 1 implies #[trigger] plan_view(out@)[m] == cur.take(i + 1)[m] by {
            if m < i {
                assert(out@[m] == before[m]);
                assert(plan_view(before)[m] == cur.take(i as int)[m]);
            }
        }
        assert(plan_view(out@) =~= cur.take(i + 1));
        i += 1;
    }
    assert(cur.take(n as int) =~= cur);
    out
}

} // verus!
