//! Shopping lists: a multibuy paste (or a hand-written list) read into
//! `(name, quantity)` pairs that the shell prices across the trade hubs.

use vstd::prelude::*;
use crate::text::{
    lines, line_bounds, parse_i64, parse_i64_spec, rfind, rfind_in, trim, trim_bounds, chars_of,
    string_from_chars, dec, all_digits, is_digit, is_ws, lemma_dec_parses, lemma_trim_padded, lemma_rfind,
};
use crate::tally::{
    Tally, TallyRule, all_positive, merge_all, merge_entry, lemma_merge_grows, lemma_merge_step,
};

verus! {

/// One requested line item.
#[derive(Debug, Clone, PartialEq, Eq)]
pub struct WantedItem {
    pub name: String,
    pub quantity: i64,
}

/// `s` without its commas.
pub open spec fn drop_commas(s: Seq<char>) -> Seq<char>
    decreases s.len(),
{
    if s.len() == 0 {
        seq![]
    } else if s.last() == ',' {
        drop_commas(s.drop_last())
    } else {
        drop_commas(s.drop_last()).push(s.last())
    }
}

/// A positive integer written in `s`, surrounding whitespace and thousands
/// commas allowed.
pub open spec fn parse_int_spec(s: Seq<char>) -> Option<i64> {
    match parse_i64_spec(drop_commas(trim(s))) {
        Some(n) => if n > 0 {
            Some(n)
        } else {
            None
        },
        None => None,
    }
}

/// Splitting `line` at the last occurrence of `sep`: the text before it, and
/// the positive integer after it, when that text after it is one.
pub open spec fn split_last(line: Seq<char>, sep: Seq<char>) -> Option<(Seq<char>, i64)> {
    match rfind(line, sep) {
        Some(i) => match parse_int_spec(line.skip(i + sep.len())) {
            Some(n) => Some((line.take(i), n)),
            None => None,
        },
        None => None,
    }
}

/// A line split into the name part and its quantity: a tab-separated number,
/// else an ` xN` suffix, else a trailing bare integer with some name before
/// it; otherwise the whole line and 1.
pub open spec fn split_quantity_spec(line: Seq<char>) -> (Seq<char>, i64) {
    match split_last(line, seq!['\t']) {
        Some(r) => r,
        None => match split_last(line, seq![' ', 'x']) {
            Some(r) => r,
            None => match split_last(line, seq![' ']) {
                Some(r) => if trim(r.0).len() > 0 {
                    r
                } else {
                    (line, 1)
                },
                None => (line, 1),
            },
        },
    }
}

/// The `(name, quantity)` one line of the list asks for, if any.
pub open spec fn wanted_entry(raw: Seq<char>) -> Option<(Seq<char>, int)> {
    let parts = split_quantity_spec(trim(raw));
    let name = trim(parts.0);
    if name.len() == 0 {
        None
    } else {
        Some((name, if parts.1 >= 1 { parts.1 as int } else { 1 }))
    }
}

/// Lines are merged when their names match exactly, quantities summed.
pub open spec fn list_rule() -> TallyRule {
    TallyRule { fold_case: false, keep_max: false }
}

/// The entry (if any) of each line of `text`.
pub open spec fn wanted_entries(text: Seq<char>) -> Seq<Option<(Seq<char>, int)>> {
    lines(text).map_values(|l: Seq<char>| wanted_entry(l))
}

/// The items a list asks for, first-seen order, quantities of lines with the
/// same name summed.
pub open spec fn multibuy_spec(text: Seq<char>) -> Seq<(Seq<char>, int)> {
    merge_all(seq![], wanted_entries(text), list_rule())
}

/// The `(name, quantity)` pairs of requested items.
pub open spec fn wanted_view(v: Seq<WantedItem>) -> Seq<(Seq<char>, int)> {
    v.map_values(|w: WantedItem| (w.name@, w.quantity as int))
}

proof fn lemma_entries_positive(text: Seq<char>)
    ensures
        all_positive(wanted_entries(text)),
{
}

/// `s[a..b]` without its commas.
fn without_commas(s: &Vec<char>, a: usize, b: usize) -> (d: Vec<char>)
    requires
        a <= b <= s.len(),
    ensures
        d@ == drop_commas(s@.subrange(a as int, b as int)),
{
    let mut d: Vec<char> = Vec::new();
    let mut k = a;
    assert(s@.subrange(a as int, a as int) =~= seq![]);
    while k < b
        invariant
            a <= k <= b <= s.len(),
            d@ == drop_commas(s@.subrange(a as int, k as int)),
        decreases b - k,
    {
        let c = s[k];
        proof {
            let t = s@.subrange(a as int, k + 1);
            assert(t.drop_last() =~= s@.subrange(a as int, k as int));
            assert(t.last() == c);
        }
        if c != ',' {
            d.push(c);
        }
        k += 1;
    }
    d
}

/// The positive integer written in `s[a..b]` (see [`parse_int_spec`]).
fn parse_int(s: &Vec<char>, a: usize, b: usize) -> (r: Option<i64>)
    requires
        a <= b <= s.len(),
    ensures
        r == parse_int_spec(s@.subrange(a as int, b as int)),
{
    let (ta, tb) = trim_bounds(s, a, b);
    let d = without_commas(s, ta, tb);
    assert(d@.subrange(0, d@.len() as int) =~= d@);
    match parse_i64(&d, 0, d.len()) {
        Some(n) => if n > 0 {
            Some(n)
        } else {
            None
        },
        None => None,
    }
}

/// [`split_last`] on `s[a..b]`: the index where the separator starts, and the
/// integer after it.
fn split_last_in(s: &Vec<char>, a: usize, b: usize, sep: &Vec<char>) -> (r: Option<(usize, i64)>)
    requires
        a <= b <= s.len(),
    ensures
        match r {
            Some((i, n)) => a <= i <= b && split_last(s@.subrange(a as int, b as int), sep@) == Some(
                (s@.subrange(a as int, i as int), n),
            ),
            None => split_last(s@.subrange(a as int, b as int), sep@) is None,
        },
{
    let ghost line = s@.subrange(a as int, b as int);
    match rfind_in(s, a, b, sep) {
        Some(i) => {
            let after = i + sep.len();
            proof {
                assert(line.skip(i - a + sep@.len()) =~= s@.subrange(after as int, b as int));
                assert(line.take(i - a) =~= s@.subrange(a as int, i as int));
            }
            match parse_int(s, after, b) {
                Some(n) => Some((i, n)),
                None => None,
            }
        },
        None => None,
    }
}

/// [`split_quantity_spec`] on `s[a..b]`: the bounds of the name part and the
/// quantity.
fn split_quantity(s: &Vec<char>, a: usize, b: usize) -> (r: (usize, usize, i64))
    requires
        a <= b <= s.len(),
    ensures
        a <= r.0 <= r.1 <= b,
        split_quantity_spec(s@.subrange(a as int, b as int)) == (
            s@.subrange(r.0 as int, r.1 as int),
            r.2,
        ),
{
    let tab = vec!['\t'];
    let ex = vec![' ', 'x'];
    let sp = vec![' '];
    assert(tab@ =~= seq!['\t']);
    assert(ex@ =~= seq![' ', 'x']);
    assert(sp@ =~= seq![' ']);
    if let Some((i, n)) = split_last_in(s, a, b, &tab) {
        return (a, i, n);
    }
    if let Some((i, n)) = split_last_in(s, a, b, &ex) {
        return (a, i, n);
    }
    if let Some((i, n)) = split_last_in(s, a, b, &sp) {
        let (ta, tb) = trim_bounds(s, a, i);
        if ta < tb {
            return (a, i, n);
        }
    }
    (a, b, 1)
}

/// Parses a multibuy or shopping-list paste into `(name, quantity)` items in
/// first-seen order, summing lines with the same name. Understands
/// `Name<TAB>Qty`, `Name xN`, a trailing bare number (`Name 5`) and a plain
/// `Name` (quantity 1); quantities may carry thousands commas. Blank lines
/// and lines without a name are skipped.
pub fn parse_multibuy(text: &str) -> (r: Vec<WantedItem>)
    requires
        forall|i: int|
            0 <= i < multibuy_spec(text@).len() ==> #[trigger] multibuy_spec(text@)[i].1 <= i64::MAX,
    ensures
        wanted_view(r@) == multibuy_spec(text@),
{
    let s = chars_of(text);
    let lb = line_bounds(&s);
    let ghost ls = lines(s@);
    let ghost es = wanted_entries(s@);
    let ghost total = multibuy_spec(text@);
    proof {
        lemma_entries_positive(s@);
    }
    let mut t = Tally::new(TallyRule { fold_case: false, keep_max: false });
    let mut k: usize = 0;
    assert(es.skip(0) =~= es);
    while k < lb.len()
        invariant
            s@ == text@,
            ls == lines(s@),
            es == wanted_entries(s@),
            all_positive(es),
            total == multibuy_spec(text@),
            lb@.len() == ls.len(),
            forall|i: int| #![trigger lb@[i]] 0 <= i < lb@.len() ==> lb@[i].0 <= lb@[i].1 && lb@[i].1 <= s@.len(),
            forall|i: int| 0 <= i < lb@.len() ==> s@.subrange(lb@[i].0 as int, lb@[i].1 as int) == #[trigger] ls[i],
            forall|i: int| 0 <= i < total.len() ==> #[trigger] total[i].1 <= i64::MAX,
            k <= lb@.len(),
            t.wf(),
            t.rule() == list_rule(),
            total == merge_all(t.entries(), es.skip(k as int), list_rule()),
        decreases lb@.len() - k,
    {
        let (a, b) = lb[k];
        let ghost line = ls[k as int];
        proof {
            lemma_merge_step(t.entries(), es, list_rule(), k as int);
            assert(es[k as int] == wanted_entry(line));
            assert forall|i: int| 0 <= i < es.skip(k + 1).len() implies (#[trigger] es.skip(k + 1)[i] matches Some(e) ==> e.1 >= 1) by {
                assert(es.skip(k + 1)[i] == es[k + 1 + i]);
            }
        }
        let (la, lz) = trim_bounds(&s, a, b);
        let (pa, pz, q) = split_quantity(&s, la, lz);
        let (na, nb) = trim_bounds(&s, pa, pz);
        if na < nb {
            let q1: i64 = if q >= 1 { q } else { 1 };
            let ghost entry = (s@.subrange(na as int, nb as int), q1 as int);
            assert(wanted_entry(line) == Some(entry));
            proof {
                let next = merge_entry(t.entries(), entry, list_rule());
                lemma_merge_grows(next, es.skip(k + 1), list_rule());
                assert(es[k as int] == Some(entry));
                assert(total == merge_all(next, es.skip(k + 1), list_rule()));
                assert(next.len() >= t.entries().len());
                assert forall|i: int| 0 <= i < t.entries().len() implies #[trigger] merge_entry(t.entries(), entry, list_rule())[i].1 <= i64::MAX by {
                    assert(total[i] == merge_all(next, es.skip(k + 1), list_rule())[i]);
                    assert(merge_all(next, es.skip(k + 1), list_rule())[i].1 >= next[i].1);
                    assert(total[i].1 <= i64::MAX);
                }
            }
            t.add(&s, na, nb, q1);
        } else {
            assert(wanted_entry(line) is None);
        }
        k += 1;
    }
    proof {
        assert(es.skip(lb@.len() as int) =~= seq![]);
    }
    let ghost cur = t.entries();
    let mut out: Vec<WantedItem> = Vec::new();
    let mut i: usize = 0;
    let n = t.len();
    while i < n
        invariant
            t.wf(),
            n == cur.len(),
            cur == t.entries(),
            i <= n,
            out@.len() == i,
            wanted_view(out@) == cur.take(i as int),
        decreases n - i,
    {
        let name = string_from_chars(t.name_chars(i).as_slice());
        let ghost before = out@;
        out.push(WantedItem { name, quantity: t.qty(i) });
        assert forall|m: int| 0 <= m < i + 1 implies #[trigger] wanted_view(out@)[m] == cur.take(i + 1)[m] by {
            if m < i {
                assert(out@[m] == before[m]);
                assert(wanted_view(before)[m] == cur.take(i as int)[m]);
            }
        }
        assert(wanted_view(out@) =~= cur.take(i + 1));
        i += 1;
    }
    assert(cur.take(n as int) =~= cur);
    out
}

proof fn lemma_no_commas(s: Seq<char>)
    requires
        forall|i: int| 0 <= i < s.len() ==> s[i] != ',',
    ensures
        drop_commas(s) == s,
    decreases s.len(),
{
    if s.len() > 0 {
        let d = s.drop_last();
        assert forall|i: int| 0 <= i < d.len() implies d[i] != ',' by {
            assert(d[i] == s[i]);
        }
        lemma_no_commas(d);
        assert(d.push(s.last()) =~= s);
    }
}

/// `rfind` finds the one place `p` occurs.
proof fn lemma_rfind_only(s: Seq<char>, p: Seq<char>, i: int)
    requires
        0 <= i && i + p.len() <= s.len(),
        s.subrange(i, i + p.len()) == p,
        forall|j: int| i < j && j + p.len() <= s.len() ==> #[trigger] s.subrange(j, j + p.len()) != p,
    ensures
        rfind(s, p) == Some(i),
{
    lemma_rfind(s, p);
    match rfind(s, p) {
        Some(m) => {
            if m < i {
                assert(s.subrange(i, i + p.len()) == p);
            }
        },
        None => {
            assert(s.subrange(i, i + p.len()) == p);
        },
    }
}

/// A list line `name<TAB>k` or `name xk` asks for `k` of `name`, for any
/// name without tabs and without whitespace at either end, and any positive
/// `k`.
pub proof fn lemma_list_line(name: Seq<char>, k: nat)
    requires
        name.len() > 0,
        !is_ws(name[0]),
        !is_ws(name.last()),
        forall|i: int| 0 <= i < name.len() ==> name[i] != '\t',
        1 <= k <= i64::MAX,
    ensures
        wanted_entry(name + seq!['\t'] + dec(k)) == Some((name, k as int)),
        wanted_entry(name + seq![' ', 'x'] + dec(k)) == Some((name, k as int)),
{
    let e = Seq::<char>::empty();
    lemma_trim_padded(e, name, e);
    assert(e + name + e =~= name);
    lemma_dec_parses(k);
    let d = dec(k);
    assert(!is_ws(d[0]) && !is_ws(d.last())) by {
        assert(is_digit(d[0]) && is_digit(d[d.len() - 1]));
    }
    lemma_trim_padded(e, d, e);
    assert(e + d + e =~= d);
    assert forall|i: int| 0 <= i < d.len() implies d[i] != ',' && d[i] != '\t' && d[i] != ' ' && d[i] != 'x' by {
        assert(is_digit(d[i]));
    }
    lemma_no_commas(d);
    let n = name.len() as int;
    // The tab form.
    let l1 = name + seq!['\t'] + d;
    lemma_trim_padded(e, l1, e);
    assert(e + l1 + e =~= l1);
    assert(l1.subrange(n, n + 1) =~= seq!['\t']);
    assert forall|j: int| n < j && j + 1 <= l1.len() implies #[trigger] l1.subrange(j, j + 1) != seq!['\t'] by {
        assert(l1.subrange(j, j + 1)[0] == d[j - n - 1]);
    }
    lemma_rfind_only(l1, seq!['\t'], n);
    assert(l1.skip(n + 1) =~= d);
    assert(l1.take(n) =~= name);
    // The ` x` form.
    let l2 = name + seq![' ', 'x'] + d;
    lemma_trim_padded(e, l2, e);
    assert(e + l2 + e =~= l2);
    assert forall|j: int| 0 <= j && j + 1 <= l2.len() implies #[trigger] l2.subrange(j, j + 1) != seq!['\t'] by {
        if j < n {
            assert(l2.subrange(j, j + 1)[0] == name[j]);
        } else if j >= n + 2 {
            assert(l2.subrange(j, j + 1)[0] == d[j - n - 2]);
        } else {
            assert(l2.subrange(j, j + 1)[0] == l2[j]);
        }
    }
    lemma_rfind(l2, seq!['\t']);
    assert(l2.subrange(n, n + 2) =~= seq![' ', 'x']);
    assert forall|j: int| n < j && j + 2 <= l2.len() implies #[trigger] l2.subrange(j, j + 2) != seq![' ', 'x'] by {
        if j == n + 1 {
            assert(l2.subrange(j, j + 2)[0] == 'x');
        } else {
            assert(l2.subrange(j, j + 2)[0] == d[j - n - 2]);
        }
    }
    lemma_rfind_only(l2, seq![' ', 'x'], n);
    assert(l2.skip(n + 2) =~= d);
    assert(l2.take(n) =~= name);
}

} // verus!
