//! Parser for the inventory text the game puts on the clipboard.
//!
//! Copying selected inventory items yields tab-separated rows,
//! `Name\tQuantity\tGroup\t...`. The parser keeps `(name, quantity)` from each
//! row, tolerating thousands separators and rows without a quantity column,
//! and sums rows whose names match ignoring ASCII case.

use vstd::prelude::*;
use crate::text::{
    is_digit, lines, line_bounds, parse_i64, parse_i64_spec, split_on, split_bounds, trim,
    trim_bounds, chars_of, string_from_chars, dec, all_digits, is_ws, find_char, lemma_find_char_is,
    lemma_dec_parses, lemma_trim_padded,
};
use crate::tally::{
    Tally, TallyRule, all_positive, merge_all, merge_entry, lemma_merge_grows, lemma_merge_step,
};

verus! {

/// One parsed loot line.
#[derive(Debug, Clone, PartialEq)]
pub struct LootLine {
    pub name: String,
    pub quantity: i64,
}

/// `s` without its trailing carriage returns (`trim_end_matches('\r')`).
pub open spec fn trim_cr(s: Seq<char>) -> Seq<char>
    decreases s.len(),
{
    if s.len() > 0 && s.last() == '\r' {
        trim_cr(s.drop_last())
    } else {
        s
    }
}

/// The ASCII digits of `s`, in order.
pub open spec fn digits_of(s: Seq<char>) -> Seq<char>
    decreases s.len(),
{
    if s.len() == 0 {
        seq![]
    } else if is_digit(s.last()) {
        digits_of(s.drop_last()).push(s.last())
    } else {
        digits_of(s.drop_last())
    }
}

/// The quantity a column states: its digits read as a number; 1 when there
/// are no digits, when they read as zero, or when they do not fit an `i64`.
pub open spec fn qty_value(s: Seq<char>) -> int {
    match parse_i64_spec(digits_of(s)) {
        Some(n) => if n > 0 {
            n as int
        } else {
            1
        },
        None => 1,
    }
}

/// The `(name, quantity)` one pasted line contributes: the trimmed first
/// tab-separated column as the name (none when it is empty), the second
/// column's quantity when that column is present and not blank, else 1.
pub open spec fn loot_entry(line: Seq<char>) -> Option<(Seq<char>, int)> {
    let cols = split_on(trim_cr(line), '\t');
    let name = trim(cols[0]);
    if name.len() == 0 {
        None
    } else if cols.len() > 1 && trim(cols[1]).len() > 0 {
        Some((name, qty_value(cols[1])))
    } else {
        Some((name, 1))
    }
}

/// Lines are merged when their names match ignoring ASCII case, quantities summed.
pub open spec fn loot_rule() -> TallyRule {
    TallyRule { fold_case: true, keep_max: false }
}

/// The entry (if any) of each line of `text`.
pub open spec fn loot_entries(text: Seq<char>) -> Seq<Option<(Seq<char>, int)>> {
    lines(text).map_values(|l: Seq<char>| loot_entry(l))
}

/// The `(name, quantity)` pairs that a paste holds, in first-seen order,
/// lines whose names match ignoring ASCII case summed.
pub open spec fn loot_spec(text: Seq<char>) -> Seq<(Seq<char>, int)> {
    merge_all(seq![], loot_entries(text), loot_rule())
}

/// The `(name, quantity)` pairs of parsed lines.
pub open spec fn loot_view(v: Seq<LootLine>) -> Seq<(Seq<char>, int)> {
    v.map_values(|l: LootLine| (l.name@, l.quantity as int))
}

proof fn lemma_qty_positive(line: Seq<char>)
    ensures
        loot_entry(line) matches Some(e) ==> e.1 >= 1,
{
}

proof fn lemma_entries_positive(text: Seq<char>)
    ensures
        all_positive(loot_entries(text)),
{
    assert forall|i: int| 0 <= i < loot_entries(text).len() implies (#[trigger] loot_entries(text)[i] matches Some(e) ==> e.1 >= 1) by {
        lemma_qty_positive(lines(text)[i]);
    }
}

proof fn lemma_trim_cr_take(s: Seq<char>, i: int)
    requires
        0 <= i <= s.len(),
        forall|j: int| i <= j < s.len() ==> #[trigger] s[j] == '\r',
    ensures
        trim_cr(s) == trim_cr(s.take(i)),
    decreases s.len() - i,
{
    if i < s.len() {
        assert(s.take(s.len() - 1) =~= s.drop_last());
        lemma_trim_cr_take(s.drop_last(), i);
        assert(s.drop_last().take(i) =~= s.take(i));
    } else {
        assert(s.take(s.len() as int) =~= s);
    }
}

/// End of `s[a..b]` with trailing carriage returns removed.
fn trim_cr_end(s: &Vec<char>, a: usize, b: usize) -> (e: usize)
    requires
        a <= b <= s.len(),
    ensures
        a <= e <= b,
        s@.subrange(a as int, e as int) == trim_cr(s@.subrange(a as int, b as int)),
{
    let mut e = b;
    while e > a && s[e - 1] == '\r'
        invariant
            a <= e <= b <= s.len(),
            forall|j: int| e <= j < b ==> #[trigger] s@[j] == '\r',
        decreases e,
    {
        e -= 1;
    }
    proof {
        let t = s@.subrange(a as int, b as int);
        assert forall|j: int| e - a <= j < t.len() implies #[trigger] t[j] == '\r' by {
            assert(t[j] == s@[a + j]);
        }
        lemma_trim_cr_take(t, e - a);
        assert(t.take(e - a) =~= s@.subrange(a as int, e as int));
        let u = s@.subrange(a as int, e as int);
        if u.len() > 0 {
            assert(u.last() == s@[e - 1]);
        }
    }
    e
}

/// The digits of `s[a..b]`.
fn digits_in_range(s: &Vec<char>, a: usize, b: usize) -> (d: Vec<char>)
    requires
        a <= b <= s.len(),
    ensures
        d@ == digits_of(s@.subrange(a as int, b as int)),
{
    let mut d: Vec<char> = Vec::new();
    let mut k = a;
    assert(s@.subrange(a as int, a as int) =~= seq![]);
    while k < b
        invariant
            a <= k <= b <= s.len(),
            d@ == digits_of(s@.subrange(a as int, k as int)),
        decreases b - k,
    {
        let c = s[k];
        proof {
            let t = s@.subrange(a as int, k + 1);
            assert(t.drop_last() =~= s@.subrange(a as int, k as int));
            assert(t.last() == c);
        }
        if '0' <= c && c <= '9' {
            d.push(c);
        }
        k += 1;
    }
    d
}

/// The quantity stated by the column `s[a..b]` (see [`qty_value`]).
fn parse_qty(s: &Vec<char>, a: usize, b: usize) -> (q: i64)
    requires
        a <= b <= s.len(),
    ensures
        q == qty_value(s@.subrange(a as int, b as int)),
        q >= 1,
{
    let d = digits_in_range(s, a, b);
    assert(d@.subrange(0, d@.len() as int) =~= d@);
    match parse_i64(&d, 0, d.len()) {
        Some(n) => if n > 0 {
            n
        } else {
            1
        },
        None => 1,
    }
}

/// Parses pasted inventory text into `(name, quantity)` lines, first-seen
/// order, summing lines whose names match ignoring ASCII case. Blank lines
/// and lines with an empty name are skipped; a line without a quantity
/// column counts once.
pub fn parse_loot(text: &str) -> (r: Vec<LootLine>)
    requires
        forall|i: int|
            0 <= i < loot_spec(text@).len() ==> #[trigger] loot_spec(text@)[i].1 <= i64::MAX,
    ensures
        loot_view(r@) == loot_spec(text@),
{
    let s = chars_of(text);
    let lb = line_bounds(&s);
    let ghost ls = lines(s@);
    let ghost es = loot_entries(s@);
    let ghost total = loot_spec(text@);
    proof {
        lemma_entries_positive(s@);
    }
    let mut t = Tally::new(TallyRule { fold_case: true, keep_max: false });
    let mut k: usize = 0;
    assert(es.skip(0) =~= es);
    while k < lb.len()
        invariant
            s@ == text@,
            ls == lines(s@),
            es == loot_entries(s@),
            all_positive(es),
            total == loot_spec(text@),
            lb@.len() == ls.len(),
            forall|i: int| #![trigger lb@[i]] 0 <= i < lb@.len() ==> lb@[i].0 <= lb@[i].1 && lb@[i].1 <= s@.len(),
            forall|i: int| 0 <= i < lb@.len() ==> s@.subrange(lb@[i].0 as int, lb@[i].1 as int) == #[trigger] ls[i],
            forall|i: int| 0 <= i < total.len() ==> #[trigger] total[i].1 <= i64::MAX,
            k <= lb@.len(),
            t.wf(),
            t.rule() == loot_rule(),
            total == merge_all(t.entries(), es.skip(k as int), loot_rule()),
        decreases lb@.len() - k,
    {
        let (a, b) = lb[k];
        let ghost line = ls[k as int];
        proof {
            lemma_merge_step(t.entries(), es, loot_rule(), k as int);
            assert(es[k as int] == loot_entry(line));
            assert forall|i: int| 0 <= i < es.skip(k + 1).len() implies (#[trigger] es.skip(k + 1)[i] matches Some(e) ==> e.1 >= 1) by {
                assert(es.skip(k + 1)[i] == es[k + 1 + i]);
            }
        }
        let e = trim_cr_end(&s, a, b);
        let cols = split_bounds(&s, a, e, '\t');
        assert(s@.subrange(a as int, e as int) == trim_cr(line));
        let (c0a, c0b) = cols[0];
        let (na, nb) = trim_bounds(&s, c0a, c0b);
        if na < nb {
            let q: i64 = if cols.len() > 1 {
                let (c1a, c1b) = cols[1];
                let (qa, qb) = trim_bounds(&s, c1a, c1b);
                if qa < qb {
                    parse_qty(&s, c1a, c1b)
                } else {
                    1
                }
            } else {
                1
            };
            let ghost entry = (s@.subrange(na as int, nb as int), q as int);
            assert(loot_entry(line) == Some(entry));
            proof {
                let next = merge_entry(t.entries(), entry, loot_rule());
                lemma_merge_grows(next, es.skip(k + 1), loot_rule());
                assert(es[k as int] == Some(entry));
                assert(total == merge_all(next, es.skip(k + 1), loot_rule()));
                assert(next.len() >= t.entries().len());
                assert forall|i: int| 0 <= i < t.entries().len() implies #[trigger] merge_entry(t.entries(), entry, loot_rule())[i].1 <= i64::MAX by {
                    assert(total[i] == merge_all(next, es.skip(k + 1), loot_rule())[i]);
                    assert(merge_all(next, es.skip(k + 1), loot_rule())[i].1 >= next[i].1);
                    assert(total[i].1 <= i64::MAX);
                }
            }
            t.add(&s, na, nb, q);
        }
        k += 1;
    }
    proof {
        assert(es.skip(lb@.len() as int) =~= seq![]);
    }
    let ghost cur = t.entries();
    let mut out: Vec<LootLine> = Vec::new();
    let mut i: usize = 0;
    let n = t.len();
    while i < n
        invariant
            t.wf(),
            n == cur.len(),
            cur == t.entries(),
            i <= n,
            out@.len() == i,
            loot_view(out@) == cur.take(i as int),
        decreases n - i,
    {
        let name = string_from_chars(t.name_chars(i).as_slice());
        let ghost before = out@;
        out.push(LootLine { name, quantity: t.qty(i) });
        assert forall|m: int| 0 <= m < i + 1 implies #[trigger] loot_view(out@)[m] == cur.take(i + 1)[m] by {
            if m < i {
                assert(out@[m] == before[m]);
                assert(loot_view(before)[m] == cur.take(i as int)[m]);
            }
        }
        assert(loot_view(out@) =~= cur.take(i + 1));
        i += 1;
    }
    assert(cur.take(n as int) =~= cur);
    out
}

proof fn lemma_digits_of_digits(s: Seq<char>)
    requires
        all_digits(s),
    ensures
        digits_of(s) == s,
    decreases s.len(),
{
    if s.len() > 0 {
        let d = s.drop_last();
        assert(all_digits(d)) by {
            assert forall|i: int| 0 <= i < d.len() implies is_digit(#[trigger] d[i]) by {
                assert(d[i] == s[i]);
            }
        }
        lemma_digits_of_digits(d);
        assert(d.push(s.last()) =~= s);
    }
}

/// A pasted row `name<TAB>k` gives the item `name` with quantity `k`, and a
/// row holding only `name` gives it with quantity 1, for any name without
/// tabs and without whitespace at either end, and any positive `k`.
pub proof fn lemma_loot_row(name: Seq<char>, k: nat)
    requires
        name.len() > 0,
        !is_ws(name[0]),
        !is_ws(name.last()),
        forall|i: int| 0 <= i < name.len() ==> name[i] != '\t',
        1 <= k <= i64::MAX,
    ensures
        loot_entry(name + seq!['\t'] + dec(k)) == Some((name, k as int)),
        loot_entry(name) == Some((name, 1int)),
{
    let e = Seq::<char>::empty();
    lemma_trim_padded(e, name, e);
    assert(e + name + e =~= name);
    lemma_dec_parses(k);
    let d = dec(k);
    assert(!is_ws(d[0]) && !is_ws(d.last())) by {
        assert(is_digit(d[0]) && is_digit(d[d.len() - 1]));
    }
    lemma_trim_padded(e, d, e);
    assert(e + d + e =~= d);
    lemma_digits_of_digits(d);
    let line = name + seq!['\t'] + d;
    assert(line.last() == d.last());
    assert(is_digit(d.last()));
    assert(trim_cr(line) == line);
    lemma_find_char_is(line, '\t', name.len() as int);
    assert(line.take(name.len() as int) =~= name);
    assert(line.skip(name.len() as int + 1) =~= d);
    assert forall|j: int| 0 <= j < d.len() implies d[j] != '\t' by {
        assert(is_digit(d[j]));
    }
    lemma_find_char_is(d, '\t', d.len() as int);
    assert(split_on(d, '\t') == seq![d]);
    assert(split_on(line, '\t') =~= seq![name, d]);
    assert(trim_cr(name) == name);
    lemma_find_char_is(name, '\t', name.len() as int);
    assert(split_on(name, '\t') == seq![name]);
}

} // verus!
