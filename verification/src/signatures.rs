//! Cosmic signatures from the probe scanner's clipboard text.
//!
//! The scanner copies tab-separated rows,
//! `ID \t Group \t Category \t Name \t Signal% \t Distance`; the parser keeps
//! the stable parts (id, category bucket, name) so a wormhole chain can be
//! logged and annotated.

use vstd::prelude::*;
use crate::text::{
    lines, line_bounds, split_on, split_bounds, trim, trim_bounds, eq_ignore_ascii_case,
    range_eq_ignore_ascii_case, ascii_lower_seq, ascii_lower_range, contains_seq, contains_chars,
    chars_of, slice_chars, string_from_chars,
};

verus! {

/// One scanned signature (the fields kept).
#[derive(Debug, Clone, PartialEq)]
pub struct ScannedSig {
    /// The signature id, e.g. "ABC-123".
    pub sig_id: String,
    /// Category bucket: Wormhole / Relic / Data / Gas / Combat / Ore, the
    /// cell as written when none matches, empty when unknown.
    pub category: String,
    /// Specific name, when resolved in game.
    pub name: String,
}

/// Number of bytes `c` takes in UTF-8.
pub open spec fn utf8_width(c: char) -> nat {
    if (c as u32) < 0x80 {
        1
    } else if (c as u32) < 0x800 {
        2
    } else if (c as u32) < 0x10000 {
        3
    } else {
        4
    }
}

/// Number of bytes `s` takes in UTF-8 (`str::len`).
pub open spec fn utf8_len(s: Seq<char>) -> nat
    decreases s.len(),
{
    if s.len() == 0 {
        0
    } else {
        utf8_len(s.drop_last()) + utf8_width(s.last())
    }
}

/// The bucket a category cell falls in: the first of the known kinds whose
/// lowercase name the lowercased cell contains, else the trimmed cell.
pub open spec fn category_spec(cell: Seq<char>) -> Seq<char> {
    let c = ascii_lower_seq(cell);
    if contains_seq(c, "wormhole"@) {
        "Wormhole"@
    } else if contains_seq(c, "relic"@) {
        "Relic"@
    } else if contains_seq(c, "data"@) {
        "Data"@
    } else if contains_seq(c, "gas"@) {
        "Gas"@
    } else if contains_seq(c, "combat"@) {
        "Combat"@
    } else if contains_seq(c, "ore"@) {
        "Ore"@
    } else {
        trim(cell)
    }
}

/// The `(id, category, name)` one scanner row gives: none unless its trimmed
/// first column is at least five bytes long and holds a dash.
pub open spec fn sig_entry(line: Seq<char>) -> Option<(Seq<char>, Seq<char>, Seq<char>)> {
    let cols = split_on(line, '\t');
    let id = trim(cols[0]);
    if utf8_len(id) < 5 || !id.contains('-') {
        None
    } else {
        Some(
            (
                id,
                if cols.len() > 2 {
                    category_spec(cols[2])
                } else {
                    seq![]
                },
                if cols.len() > 3 {
                    trim(cols[3])
                } else {
                    seq![]
                },
            ),
        )
    }
}

/// Index of the first signature whose id equals `id` ignoring ASCII case, or
/// `acc.len()`.
pub open spec fn find_sig(acc: Seq<(Seq<char>, Seq<char>, Seq<char>)>, id: Seq<char>) -> nat
    decreases acc.len(),
{
    if acc.len() == 0 {
        0
    } else if eq_ignore_ascii_case(acc[0].0, id) {
        0
    } else {
        1 + find_sig(acc.drop_first(), id)
    }
}

/// `acc` with the row `e` folded in: a signature seen before keeps its id
/// and gets the row's category and name where its own are empty; a new one
/// is appended.
pub open spec fn merge_sig(
    acc: Seq<(Seq<char>, Seq<char>, Seq<char>)>,
    e: (Seq<char>, Seq<char>, Seq<char>),
) -> Seq<(Seq<char>, Seq<char>, Seq<char>)> {
    let j = find_sig(acc, e.0) as int;
    if j < acc.len() {
        let o = acc[j];
        acc.update(
            j,
            (
                o.0,
                if o.1.len() == 0 {
                    e.1
                } else {
                    o.1
                },
                if o.2.len() == 0 {
                    e.2
                } else {
                    o.2
                },
            ),
        )
    } else {
        acc.push(e)
    }
}

/// `acc` with the rows of `ls` folded in, in order.
pub open spec fn sigs_from(acc: Seq<(Seq<char>, Seq<char>, Seq<char>)>, ls: Seq<Seq<char>>) -> Seq<
    (Seq<char>, Seq<char>, Seq<char>),
>
    decreases ls.len(),
{
    if ls.len() == 0 {
        acc
    } else {
        let next = match sig_entry(ls[0]) {
            Some(e) => merge_sig(acc, e),
            None => acc,
        };
        sigs_from(next, ls.drop_first())
    }
}

/// The signatures a scanner paste holds, first-seen order.
pub open spec fn signatures_spec(text: Seq<char>) -> Seq<(Seq<char>, Seq<char>, Seq<char>)> {
    sigs_from(seq![], lines(text))
}

/// No two signatures have ids equal ignoring ASCII case.
pub open spec fn ids_unique(acc: Seq<(Seq<char>, Seq<char>, Seq<char>)>) -> bool {
    forall|i: int, j: int| 0 <= i < j < acc.len() ==> !eq_ignore_ascii_case(#[trigger] acc[i].0, #[trigger] acc[j].0)
}

proof fn lemma_find_sig_props(acc: Seq<(Seq<char>, Seq<char>, Seq<char>)>, id: Seq<char>)
    ensures
        find_sig(acc, id) <= acc.len(),
        find_sig(acc, id) < acc.len() ==> eq_ignore_ascii_case(acc[find_sig(acc, id) as int].0, id),
        forall|i: int| 0 <= i < find_sig(acc, id) ==> !eq_ignore_ascii_case(#[trigger] acc[i].0, id),
    decreases acc.len(),
{
    if acc.len() > 0 && !eq_ignore_ascii_case(acc[0].0, id) {
        lemma_find_sig_props(acc.drop_first(), id);
        assert forall|i: int| 0 <= i < find_sig(acc, id) implies !eq_ignore_ascii_case(#[trigger] acc[i].0, id) by {
            if i > 0 {
                assert(acc[i] == acc.drop_first()[i - 1]);
            }
        }
        if find_sig(acc, id) < acc.len() {
            assert(acc[find_sig(acc, id) as int] == acc.drop_first()[find_sig(acc.drop_first(), id) as int]);
        }
    }
}

/// Folding scanner rows into signatures (as [`parse_signatures`] does from
/// none): ids stay unique ignoring ASCII case; every signature already there
/// keeps its place, its id, and any category or name it already has; and
/// every accepted row ends up under a signature with its id (ignoring case).
pub proof fn lemma_sigs_fold(acc: Seq<(Seq<char>, Seq<char>, Seq<char>)>, ls: Seq<Seq<char>>)
    requires
        ids_unique(acc),
    ensures
        ids_unique(sigs_from(acc, ls)),
        sigs_from(acc, ls).len() >= acc.len(),
        forall|j: int|
            0 <= j < acc.len() ==> (#[trigger] sigs_from(acc, ls)[j]).0 == acc[j].0 && (acc[j].1.len() > 0
                ==> sigs_from(acc, ls)[j].1 == acc[j].1) && (acc[j].2.len() > 0 ==> sigs_from(acc, ls)[j].2
                == acc[j].2),
        forall|i: int|
            0 <= i < ls.len() ==> (sig_entry(#[trigger] ls[i]) matches Some(e) ==> exists|j: int|
                0 <= j < sigs_from(acc, ls).len() && eq_ignore_ascii_case(
                    #[trigger] sigs_from(acc, ls)[j].0,
                    e.0,
                )),
    decreases ls.len(),
{
    if ls.len() > 0 {
        let next = match sig_entry(ls[0]) {
            Some(e) => merge_sig(acc, e),
            None => acc,
        };
        let rest = ls.drop_first();
        match sig_entry(ls[0]) {
            Some(e) => {
                lemma_find_sig_props(acc, e.0);
                let j = find_sig(acc, e.0) as int;
                assert forall|a: int, b: int| 0 <= a < b < next.len() implies !eq_ignore_ascii_case(
                    #[trigger] next[a].0,
                    #[trigger] next[b].0,
                ) by {
                    if j == acc.len() && b == acc.len() {
                        assert(next[b] == e);
                    } else {
                        assert(next[a].0 == acc[a].0 && next[b].0 == acc[b].0);
                    }
                }
            },
            None => {},
        }
        lemma_sigs_fold(next, rest);
        let m = sigs_from(acc, ls);
        assert(m == sigs_from(next, rest));
        assert forall|j: int| 0 <= j < acc.len() implies (#[trigger] m[j]).0 == acc[j].0 && (acc[j].1.len() > 0
            ==> m[j].1 == acc[j].1) && (acc[j].2.len() > 0 ==> m[j].2 == acc[j].2) by {
            assert(next[j].0 == acc[j].0);
        }
        assert forall|i: int| 0 <= i < ls.len() implies (sig_entry(#[trigger] ls[i]) matches Some(e) ==> exists|j: int|
            0 <= j < m.len() && eq_ignore_ascii_case(#[trigger] m[j].0, e.0)) by {
            if i == 0 && sig_entry(ls[0]) is Some {
                let e = sig_entry(ls[0])->0;
                let j = find_sig(acc, e.0) as int;
                if j < acc.len() {
                    assert(m[j].0 == next[j].0);
                } else {
                    assert(next[j] == e);
                    assert(m[j].0 == next[j].0);
                }
            } else if i > 0 {
                assert(rest[i - 1] == ls[i]);
            }
        }
    }
}

/// The `(id, category, name)` triples of parsed signatures.
pub open spec fn sig_view(v: Seq<ScannedSig>) -> Seq<(Seq<char>, Seq<char>, Seq<char>)> {
    v.map_values(|g: ScannedSig| (g.sig_id@, g.category@, g.name@))
}

proof fn lemma_find_sig_is(acc: Seq<(Seq<char>, Seq<char>, Seq<char>)>, id: Seq<char>, k: int)
    requires
        0 <= k <= acc.len(),
        forall|i: int| 0 <= i < k ==> !eq_ignore_ascii_case(#[trigger] acc[i].0, id),
        k < acc.len() ==> eq_ignore_ascii_case(acc[k].0, id),
    ensures
        find_sig(acc, id) == k,
    decreases k,
{
    if k > 0 {
        assert(!eq_ignore_ascii_case(acc[0].0, id));
        assert forall|i: int| 0 <= i < k - 1 implies !eq_ignore_ascii_case(
            #[trigger] acc.drop_first()[i].0,
            id,
        ) by {
            assert(acc.drop_first()[i] == acc[i + 1]);
        }
        lemma_find_sig_is(acc.drop_first(), id, k - 1);
    }
}

/// UTF-8 length of `s[a..b]`, capped at `cap`.
fn utf8_len_capped(s: &Vec<char>, a: usize, b: usize, cap: usize) -> (n: usize)
    requires
        a <= b <= s.len(),
        0 < cap <= 1024,
    ensures
        n == if utf8_len(s@.subrange(a as int, b as int)) < cap {
            utf8_len(s@.subrange(a as int, b as int))
        } else {
            cap as nat
        },
{
    let mut n: usize = 0;
    let mut k = a;
    assert(s@.subrange(a as int, a as int) =~= seq![]);
    while k < b
        invariant
            a <= k <= b <= s.len(),
            0 < cap <= 1024,
            n < cap,
            n == utf8_len(s@.subrange(a as int, k as int)),
        decreases b - k,
    {
        let c = s[k];
        let w: usize = if (c as u32) < 0x80 {
            1
        } else if (c as u32) < 0x800 {
            2
        } else if (c as u32) < 0x10000 {
            3
        } else {
            4
        };
        proof {
            let t = s@.subrange(a as int, k + 1);
            assert(t.drop_last() =~= s@.subrange(a as int, k as int));
            assert(t.last() == c);
        }
        if n + w >= cap {
            proof {
                lemma_utf8_len_grows(s@.subrange(a as int, b as int), k + 1 - a);
                assert(s@.subrange(a as int, b as int).take(k + 1 - a) =~= s@.subrange(a as int, k + 1));
            }
            return cap;
        }
        n = n + w;
        k += 1;
    }
    n
}

proof fn lemma_utf8_len_grows(s: Seq<char>, i: int)
    requires
        0 <= i <= s.len(),
    ensures
        utf8_len(s.take(i)) <= utf8_len(s),
    decreases s.len() - i,
{
    if i < s.len() {
        lemma_utf8_len_grows(s.drop_last(), i);
        assert(s.drop_last().take(i) =~= s.take(i));
    } else {
        assert(s.take(i) =~= s);
    }
}

/// Whether `s[a..b]` holds a `-`.
fn has_dash(s: &Vec<char>, a: usize, b: usize) -> (r: bool)
    requires
        a <= b <= s.len(),
    ensures
        r == s@.subrange(a as int, b as int).contains('-'),
{
    let mut k = a;
    while k < b
        invariant
            a <= k <= b <= s.len(),
            forall|j: int| a <= j < k ==> #[trigger] s@[j] != '-',
        decreases b - k,
    {
        if s[k] == '-' {
            assert(s@.subrange(a as int, b as int)[k - a] == '-');
            return true;
        }
        k += 1;
    }
    proof {
        let t = s@.subrange(a as int, b as int);
        assert forall|j: int| 0 <= j < t.len() implies t[j] != '-' by {
            assert(t[j] == s@[a + j]);
        }
    }
    false
}

/// Whether the lowercased cell `low` contains `pat`.
fn holds(low: &Vec<char>, pat: &str) -> (r: bool)
    ensures
        r == contains_seq(low@, pat@),
{
    let p = chars_of(pat);
    contains_chars(low, &p)
}

/// The bucket of the category cell `s[a..b]` (see [`category_spec`]).
fn category_of(s: &Vec<char>, a: usize, b: usize) -> (r: Vec<char>)
    requires
        a <= b <= s.len(),
    ensures
        r@ == category_spec(s@.subrange(a as int, b as int)),
{
    let low = ascii_lower_range(s, a, b);
    if holds(&low, "wormhole") {
        chars_of("Wormhole")
    } else if holds(&low, "relic") {
        chars_of("Relic")
    } else if holds(&low, "data") {
        chars_of("Data")
    } else if holds(&low, "gas") {
        chars_of("Gas")
    } else if holds(&low, "combat") {
        chars_of("Combat")
    } else if holds(&low, "ore") {
        chars_of("Ore")
    } else {
        let (ta, tb) = trim_bounds(s, a, b);
        slice_chars(s, ta, tb)
    }
}

/// The fields of the scanner row `s[a..b]`: the bounds of its id and its
/// category and name, when the row is a signature (see [`sig_entry`]).
fn sig_row(s: &Vec<char>, a: usize, b: usize) -> (r: Option<(usize, usize, Vec<char>, Vec<char>)>)
    requires
        a <= b <= s.len(),
    ensures
        match r {
            Some((ia, ib, cat, name)) => ia <= ib <= s.len() && sig_entry(s@.subrange(a as int, b as int))
                == Some((s@.subrange(ia as int, ib as int), cat@, name@)),
            None => sig_entry(s@.subrange(a as int, b as int)) is None,
        },
{
    let cols = split_bounds(s, a, b, '\t');
    let (c0a, c0b) = cols[0];
    let (ia, ib) = trim_bounds(s, c0a, c0b);
    let short = utf8_len_capped(s, ia, ib, 5) < 5;
    if short || !has_dash(s, ia, ib) {
        return None;
    }
    let cat: Vec<char> = if cols.len() > 2 {
        let (c2a, c2b) = cols[2];
        category_of(s, c2a, c2b)
    } else {
        Vec::new()
    };
    let name: Vec<char> = if cols.len() > 3 {
        let (c3a, c3b) = cols[3];
        let (na, nb) = trim_bounds(s, c3a, c3b);
        slice_chars(s, na, nb)
    } else {
        Vec::new()
    };
    proof {
        let x = sig_entry(s@.subrange(a as int, b as int))->Some_0;
        assert(x.1 =~= cat@);
        assert(x.2 =~= name@);
    }
    Some((ia, ib, cat, name))
}

/// Signatures collected so far, as characters.
struct SigTable {
    ids: Vec<Vec<char>>,
    cats: Vec<Vec<char>>,
    names: Vec<Vec<char>>,
}

impl SigTable {
    closed spec fn entries(&self) -> Seq<(Seq<char>, Seq<char>, Seq<char>)> {
        Seq::new(self.ids@.len(), |i: int| (self.ids@[i]@, self.cats@[i]@, self.names@[i]@))
    }

    closed spec fn wf(&self) -> bool {
        self.ids@.len() == self.cats@.len() && self.ids@.len() == self.names@.len()
    }

    fn new() -> (t: SigTable)
        ensures
            t.wf(),
            t.entries() == Seq::<(Seq<char>, Seq<char>, Seq<char>)>::empty(),
    {
        let t = SigTable { ids: Vec::new(), cats: Vec::new(), names: Vec::new() };
        assert(t.entries() =~= Seq::<(Seq<char>, Seq<char>, Seq<char>)>::empty());
        t
    }

    /// Folds in the row with id `s[ia..ib]`, category `cat` and name `name`.
    fn add(&mut self, s: &Vec<char>, ia: usize, ib: usize, cat: Vec<char>, name: Vec<char>)
        requires
            old(self).wf(),
            ia <= ib <= s.len(),
        ensures
            final(self).wf(),
            final(self).entries() == merge_sig(
                old(self).entries(),
                (s@.subrange(ia as int, ib as int), cat@, name@),
            ),
    {
        let ghost id = s@.subrange(ia as int, ib as int);
        let ghost acc = self.entries();
        let ghost entry = (id, cat@, name@);
        let mut j: usize = 0;
        loop
            invariant
                j <= self.ids@.len(),
                self.wf(),
                acc == self.entries(),
                forall|i: int| 0 <= i < j ==> !eq_ignore_ascii_case(#[trigger] acc[i].0, id),
                ia <= ib <= s@.len(),
                id == s@.subrange(ia as int, ib as int),
            ensures
                j <= self.ids@.len(),
                j < self.ids@.len() ==> eq_ignore_ascii_case(acc[j as int].0, id),
            decreases self.ids@.len() - j,
        {
            if j == self.ids.len() {
                break;
            }
            let len = self.ids[j].len();
            let same = range_eq_ignore_ascii_case(&self.ids[j], 0, len, s, ia, ib);
            assert(acc[j as int].0 == self.ids@[j as int]@);
            assert(self.ids@[j as int]@.subrange(0, len as int) =~= self.ids@[j as int]@);
            if same {
                break;
            }
            j += 1;
        }
        proof {
            lemma_find_sig_is(acc, id, j as int);
        }
        if j < self.ids.len() {
            if self.cats[j].len() == 0 && cat.len() > 0 {
                self.cats.set(j, cat);
            }
            if self.names[j].len() == 0 && name.len() > 0 {
                self.names.set(j, name);
            }
            proof {
                let o = acc[j as int];
                if o.1.len() == 0 {
                    assert(self.cats@[j as int]@ =~= entry.1);
                }
                if o.2.len() == 0 {
                    assert(self.names@[j as int]@ =~= entry.2);
                }
            }
        } else {
            self.ids.push(slice_chars(s, ia, ib));
            self.cats.push(cat);
            self.names.push(name);
        }
        assert(self.entries() =~= merge_sig(acc, entry));
    }
}

/// Parses pasted probe-scanner text into signatures, first-seen order.
/// Rows whose first column is not a dashed id of at least five bytes are
/// skipped; a signature scanned twice is kept once, its empty category or
/// name filled from the later row.
pub fn parse_signatures(text: &str) -> (r: Vec<ScannedSig>)
    ensures
        sig_view(r@) == signatures_spec(text@),
{
    let s = chars_of(text);
    let lb = line_bounds(&s);
    let ghost ls = lines(s@);
    let mut t = SigTable::new();
    let mut k: usize = 0;
    assert(ls.skip(0) =~= ls);
    while k < lb.len()
        invariant
            s@ == text@,
            ls == lines(s@),
            lb@.len() == ls.len(),
            forall|i: int| #![trigger lb@[i]] 0 <= i < lb@.len() ==> lb@[i].0 <= lb@[i].1 && lb@[i].1 <= s@.len(),
            forall|i: int| 0 <= i < lb@.len() ==> s@.subrange(lb@[i].0 as int, lb@[i].1 as int) == #[trigger] ls[i],
            k <= lb@.len(),
            t.wf(),
            signatures_spec(text@) == sigs_from(t.entries(), ls.skip(k as int)),
        decreases lb@.len() - k,
    {
        let (a, b) = lb[k];
        proof {
            assert(ls.skip(k as int).drop_first() =~= ls.skip(k + 1));
            assert(ls.skip(k as int)[0] == ls[k as int]);
        }
        if let Some((ia, ib, cat, name)) = sig_row(&s, a, b) {
            t.add(&s, ia, ib, cat, name);
        }
        k += 1;
    }
    proof {
        assert(ls.skip(lb@.len() as int) =~= seq![]);
    }
    let ghost cur = t.entries();
    let mut out: Vec<ScannedSig> = Vec::new();
    let mut i: usize = 0;
    let n = t.ids.len();
    while i < n
        invariant
            t.wf(),
            cur == t.entries(),
            n == cur.len(),
            i <= n,
            out@.len() == i,
            sig_view(out@) == cur.take(i as int),
        decreases n - i,
    {
        let g = ScannedSig {
            sig_id: string_from_chars(t.ids[i].as_slice()),
            category: string_from_chars(t.cats[i].as_slice()),
            name: string_from_chars(t.names[i].as_slice()),
        };
        let ghost before = out@;
        out.push(g);
        assert forall|m: int| 0 <= m < i + 1 implies #[trigger] sig_view(out@)[m] == cur.take(i + 1)[m] by {
            if m < i {
                assert(out@[m] == before[m]);
                assert(sig_view(before)[m] == cur.take(i as int)[m]);
            }
        }
        assert(sig_view(out@) =~= cur.take(i + 1));
        i += 1;
    }
    assert(cur.take(n as int) =~= cur);
    out
}

} // verus!
