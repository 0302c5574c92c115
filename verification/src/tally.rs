//! Running totals keyed by name, in first-seen order.
//!
//! The paste parsers fold `(name, quantity)` entries into such a tally: an
//! entry whose name matches one already there is combined with it (summed,
//! or the larger kept), any other is appended. Names match exactly, or
//! ignoring ASCII case.

use vstd::prelude::*;
use crate::text::{eq_ignore_ascii_case, range_eq, range_eq_ignore_ascii_case, slice_chars};

verus! {

/// How a tally matches names and combines quantities.
#[derive(Clone, Copy)]
pub struct TallyRule {
    /// Names match ignoring ASCII case (else exactly).
    pub fold_case: bool,
    /// A repeated name keeps the larger quantity (else the sum).
    pub keep_max: bool,
}

/// The quantity of a repeated name: the larger or the sum.
pub open spec fn combine(rule: TallyRule, old: int, new: int) -> int {
    if rule.keep_max {
        if old >= new {
            old
        } else {
            new
        }
    } else {
        old + new
    }
}

/// Whether two names denote the same entry.
pub open spec fn same_name(fold_case: bool, a: Seq<char>, b: Seq<char>) -> bool {
    if fold_case {
        eq_ignore_ascii_case(a, b)
    } else {
        a == b
    }
}

/// Index of the first entry named like `name`, or `acc.len()` when there is
/// none.
pub open spec fn find_entry(acc: Seq<(Seq<char>, int)>, name: Seq<char>, rule: TallyRule) -> nat
    decreases acc.len(),
{
    if acc.len() == 0 {
        0
    } else if same_name(rule.fold_case, acc[0].0, name) {
        0
    } else {
        1 + find_entry(acc.drop_first(), name, rule)
    }
}

/// `acc` with `e` folded in: combined with the first entry named like it,
/// or appended.
pub open spec fn merge_entry(acc: Seq<(Seq<char>, int)>, e: (Seq<char>, int), rule: TallyRule) -> Seq<(Seq<char>, int)> {
    let j = find_entry(acc, e.0, rule) as int;
    if j < acc.len() {
        acc.update(j, (acc[j].0, combine(rule, acc[j].1, e.1)))
    } else {
        acc.push(e)
    }
}

/// `acc` with the present entries of `es` folded in, in order.
pub open spec fn merge_all(acc: Seq<(Seq<char>, int)>, es: Seq<Option<(Seq<char>, int)>>, rule: TallyRule) -> Seq<(Seq<char>, int)>
    decreases es.len(),
{
    if es.len() == 0 {
        acc
    } else {
        let next = match es[0] {
            Some(e) => merge_entry(acc, e, rule),
            None => acc,
        };
        merge_all(next, es.drop_first(), rule)
    }
}

/// Every present entry of `es` has a positive quantity.
pub open spec fn all_positive(es: Seq<Option<(Seq<char>, int)>>) -> bool {
    forall|i: int| 0 <= i < es.len() ==> (#[trigger] es[i] matches Some(e) ==> e.1 >= 1)
}

/// The entry matching `name` is the first one, at `k`, whose name matches
/// under the rule (none when `k` is past the end).
pub proof fn lemma_find_entry_is(acc: Seq<(Seq<char>, int)>, name: Seq<char>, rule: TallyRule, k: int)
    requires
        0 <= k <= acc.len(),
        forall|i: int| 0 <= i < k ==> !same_name(rule.fold_case, #[trigger] acc[i].0, name),
        k < acc.len() ==> same_name(rule.fold_case, acc[k].0, name),
    ensures
        find_entry(acc, name, rule) == k,
    decreases k,
{
    if k > 0 {
        assert(!same_name(rule.fold_case, acc[0].0, name));
        assert forall|i: int| 0 <= i < k - 1 implies !same_name(
            rule.fold_case,
            #[trigger] acc.drop_first()[i].0,
            name,
        ) by {
            assert(acc.drop_first()[i] == acc[i + 1]);
        }
        lemma_find_entry_is(acc.drop_first(), name, rule, k - 1);
    }
}

/// Folding entries in keeps every entry already there, with a quantity no
/// smaller.
pub proof fn lemma_merge_grows(acc: Seq<(Seq<char>, int)>, es: Seq<Option<(Seq<char>, int)>>, rule: TallyRule)
    requires
        all_positive(es),
    ensures
        merge_all(acc, es, rule).len() >= acc.len(),
        forall|i: int| 0 <= i < acc.len() ==> #[trigger] merge_all(acc, es, rule)[i].1 >= acc[i].1,
    decreases es.len(),
{
    if es.len() > 0 {
        let next = match es[0] {
            Some(e) => merge_entry(acc, e, rule),
            None => acc,
        };
        assert(es[0] matches Some(e) ==> e.1 >= 1);
        assert forall|i: int| 0 <= i < es.drop_first().len() implies (#[trigger] es.drop_first()[i] matches Some(e) ==> e.1 >= 1) by {
            assert(es.drop_first()[i] == es[i + 1]);
        }
        lemma_merge_grows(next, es.drop_first(), rule);
        assert forall|i: int| 0 <= i < acc.len() implies #[trigger] merge_all(acc, es, rule)[i].1 >= acc[i].1 by {
            assert(next[i].1 >= acc[i].1);
            assert(merge_all(next, es.drop_first(), rule)[i].1 >= next[i].1);
        }
    }
}

/// Unfolds one step of [`merge_all`] at position `k`.
pub proof fn lemma_merge_step(acc: Seq<(Seq<char>, int)>, es: Seq<Option<(Seq<char>, int)>>, rule: TallyRule, k: int)
    requires
        0 <= k < es.len(),
    ensures
        merge_all(acc, es.skip(k), rule) == merge_all(
            match es[k] {
                Some(e) => merge_entry(acc, e, rule),
                None => acc,
            },
            es.skip(k + 1),
            rule,
        ),
{
    assert(es.skip(k).drop_first() =~= es.skip(k + 1));
    assert(es.skip(k)[0] == es[k]);
}

/// Total quantity of a tally.
pub open spec fn qty_total(acc: Seq<(Seq<char>, int)>) -> int
    decreases acc.len(),
{
    if acc.len() == 0 {
        0
    } else {
        qty_total(acc.drop_last()) + acc.last().1
    }
}

/// Total quantity of the present entries.
pub open spec fn present_total(es: Seq<Option<(Seq<char>, int)>>) -> int
    decreases es.len(),
{
    if es.len() == 0 {
        0
    } else {
        (match es[0] {
            Some(e) => e.1,
            None => 0,
        }) + present_total(es.drop_first())
    }
}

/// No two entries of `acc` are named alike under the rule.
pub open spec fn names_unique(acc: Seq<(Seq<char>, int)>, rule: TallyRule) -> bool {
    forall|i: int, j: int| 0 <= i < j < acc.len() ==> !same_name(rule.fold_case, #[trigger] acc[i].0, #[trigger] acc[j].0)
}

proof fn lemma_qty_total_update(acc: Seq<(Seq<char>, int)>, j: int, x: (Seq<char>, int))
    requires
        0 <= j < acc.len(),
    ensures
        qty_total(acc.update(j, x)) == qty_total(acc) - acc[j].1 + x.1,
    decreases acc.len(),
{
    let u = acc.update(j, x);
    if j == acc.len() - 1 {
        assert(u.drop_last() =~= acc.drop_last());
    } else {
        lemma_qty_total_update(acc.drop_last(), j, x);
        assert(u.drop_last() =~= acc.drop_last().update(j, x));
    }
}

proof fn lemma_find_entry_props(acc: Seq<(Seq<char>, int)>, name: Seq<char>, rule: TallyRule)
    ensures
        find_entry(acc, name, rule) <= acc.len(),
        find_entry(acc, name, rule) < acc.len() ==> same_name(rule.fold_case, acc[find_entry(acc, name, rule) as int].0, name),
        forall|i: int| 0 <= i < find_entry(acc, name, rule) ==> !same_name(rule.fold_case, #[trigger] acc[i].0, name),
    decreases acc.len(),
{
    if acc.len() > 0 && !same_name(rule.fold_case, acc[0].0, name) {
        lemma_find_entry_props(acc.drop_first(), name, rule);
        assert forall|i: int| 0 <= i < find_entry(acc, name, rule) implies !same_name(rule.fold_case, #[trigger] acc[i].0, name) by {
            if i > 0 {
                assert(acc[i] == acc.drop_first()[i - 1]);
            }
        }
        if find_entry(acc, name, rule) < acc.len() {
            assert(acc[find_entry(acc, name, rule) as int] == acc.drop_first()[find_entry(acc.drop_first(), name, rule) as int]);
        }
    }
}

/// Folding in entries keeps the entries already there in their places and
/// under their names, and never lowers a quantity when the larger is kept.
pub proof fn lemma_merge_keeps_places(acc: Seq<(Seq<char>, int)>, es: Seq<Option<(Seq<char>, int)>>, rule: TallyRule)
    ensures
        merge_all(acc, es, rule).len() >= acc.len(),
        forall|j: int| 0 <= j < acc.len() ==> (#[trigger] merge_all(acc, es, rule)[j]).0 == acc[j].0,
        rule.keep_max ==> forall|j: int| 0 <= j < acc.len() ==> (#[trigger] merge_all(acc, es, rule)[j]).1 >= acc[j].1,
    decreases es.len(),
{
    if es.len() > 0 {
        let next = match es[0] {
            Some(e) => merge_entry(acc, e, rule),
            None => acc,
        };
        lemma_merge_keeps_places(next, es.drop_first(), rule);
        assert forall|j: int| 0 <= j < acc.len() implies next[j].0 == acc[j].0 && (rule.keep_max ==> next[j].1 >= acc[j].1) by {
        }
    }
}

/// When repeats are summed, folding in entries adds exactly their
/// quantities to the total: nothing is lost or counted twice.
pub proof fn lemma_merge_sums(acc: Seq<(Seq<char>, int)>, es: Seq<Option<(Seq<char>, int)>>, rule: TallyRule)
    requires
        !rule.keep_max,
    ensures
        qty_total(merge_all(acc, es, rule)) == qty_total(acc) + present_total(es),
    decreases es.len(),
{
    if es.len() > 0 {
        let next = match es[0] {
            Some(e) => merge_entry(acc, e, rule),
            None => acc,
        };
        match es[0] {
            Some(e) => {
                let j = find_entry(acc, e.0, rule) as int;
                lemma_find_entry_props(acc, e.0, rule);
                if j < acc.len() {
                    lemma_qty_total_update(acc, j, (acc[j].0, combine(rule, acc[j].1, e.1)));
                } else {
                    assert(acc.push(e).drop_last() =~= acc);
                }
            },
            None => {},
        }
        lemma_merge_sums(next, es.drop_first(), rule);
    }
}

/// Folding in entries keeps names unique under the rule, and every present
/// entry ends up in an entry named like it, which, when the larger is kept,
/// holds at least its quantity.
pub proof fn lemma_merge_unique_and_complete(acc: Seq<(Seq<char>, int)>, es: Seq<Option<(Seq<char>, int)>>, rule: TallyRule)
    requires
        names_unique(acc, rule),
    ensures
        names_unique(merge_all(acc, es, rule), rule),
        forall|i: int|
            0 <= i < es.len() ==> (#[trigger] es[i] matches Some(e) ==> exists|j: int|
                0 <= j < merge_all(acc, es, rule).len() && same_name(
                    rule.fold_case,
                    #[trigger] merge_all(acc, es, rule)[j].0,
                    e.0,
                ) && (rule.keep_max ==> merge_all(acc, es, rule)[j].1 >= e.1)),
    decreases es.len(),
{
    if es.len() > 0 {
        let next = match es[0] {
            Some(e) => merge_entry(acc, e, rule),
            None => acc,
        };
        let rest = es.drop_first();
        match es[0] {
            Some(e) => {
                lemma_find_entry_props(acc, e.0, rule);
                let j = find_entry(acc, e.0, rule) as int;
                if j == acc.len() {
                    assert forall|a: int, b: int| 0 <= a < b < next.len() implies !same_name(rule.fold_case, #[trigger] next[a].0, #[trigger] next[b].0) by {
                        if b == acc.len() {
                            assert(next[b] == e);
                        }
                    }
                } else {
                    assert forall|a: int, b: int| 0 <= a < b < next.len() implies !same_name(rule.fold_case, #[trigger] next[a].0, #[trigger] next[b].0) by {
                        assert(next[a].0 == acc[a].0 && next[b].0 == acc[b].0);
                    }
                }
            },
            None => {},
        }
        lemma_merge_unique_and_complete(next, rest, rule);
        lemma_merge_keeps_places(next, rest, rule);
        let m = merge_all(acc, es, rule);
        assert(m == merge_all(next, rest, rule));
        assert forall|i: int| 0 <= i < es.len() implies (#[trigger] es[i] matches Some(e) ==> exists|j: int|
            0 <= j < m.len() && same_name(rule.fold_case, #[trigger] m[j].0, e.0) && (rule.keep_max ==> m[j].1
                >= e.1)) by {
            if i == 0 && es[0] is Some {
                let e = es[0]->0;
                let j = find_entry(acc, e.0, rule) as int;
                if j < acc.len() {
                    assert(next[j].0 == acc[j].0);
                    assert(m[j].0 == next[j].0);
                } else {
                    assert(next[j] == e);
                    assert(m[j].0 == next[j].0);
                    assert(same_name(rule.fold_case, e.0, e.0));
                }
            } else if i > 0 {
                assert(rest[i - 1] == es[i]);
            }
        }
    }
}

/// Running totals by name: the names (as characters) and quantities of the
/// entries, in first-seen order.
pub struct Tally {
    names: Vec<Vec<char>>,
    qtys: Vec<i64>,
    rule: TallyRule,
}

impl Tally {
    /// The `(name, quantity)` entries.
    pub closed spec fn entries(&self) -> Seq<(Seq<char>, int)> {
        Seq::new(self.names@.len(), |i: int| (self.names@[i]@, self.qtys@[i] as int))
    }

    /// How names match and quantities combine.
    pub closed spec fn rule(&self) -> TallyRule {
        self.rule
    }

    pub closed spec fn wf(&self) -> bool {
        &&& self.names@.len() == self.qtys@.len()
        &&& forall|i: int| 0 <= i < self.qtys@.len() ==> #[trigger] self.qtys@[i] >= 1
    }

    /// An empty tally.
    pub fn new(rule: TallyRule) -> (t: Tally)
        ensures
            t.wf(),
            t.entries() == Seq::<(Seq<char>, int)>::empty(),
            t.rule() == rule,
    {
        let t = Tally { names: Vec::new(), qtys: Vec::new(), rule };
        assert(t.entries() =~= Seq::<(Seq<char>, int)>::empty());
        t
    }

    /// Folds in the entry named `s[a..b]` with quantity `q`.
    pub fn add(&mut self, s: &Vec<char>, a: usize, b: usize, q: i64)
        requires
            old(self).wf(),
            a <= b <= s.len(),
            q >= 1,
            forall|i: int|
                0 <= i < old(self).entries().len() ==> #[trigger] merge_entry(
                    old(self).entries(),
                    (s@.subrange(a as int, b as int), q as int),
                    old(self).rule(),
                )[i].1 <= i64::MAX,
        ensures
            final(self).wf(),
            final(self).rule() == old(self).rule(),
            final(self).entries() == merge_entry(
                old(self).entries(),
                (s@.subrange(a as int, b as int), q as int),
                old(self).rule(),
            ),
    {
        let ghost name = s@.subrange(a as int, b as int);
        let ghost acc = self.entries();
        let mut j: usize = 0;
        loop
            invariant
                j <= self.names@.len(),
                self.wf(),
                acc == self.entries(),
                forall|i: int| 0 <= i < j ==> !same_name(self.rule.fold_case, #[trigger] acc[i].0, name),
                a <= b <= s@.len(),
                name == s@.subrange(a as int, b as int),
            ensures
                j <= self.names@.len(),
                j < self.names@.len() ==> same_name(self.rule.fold_case, acc[j as int].0, name),
            decreases self.names@.len() - j,
        {
            if j == self.names.len() {
                break;
            }
            let len = self.names[j].len();
            let same = if self.rule.fold_case {
                range_eq_ignore_ascii_case(&self.names[j], 0, len, s, a, b)
            } else {
                range_eq(&self.names[j], 0, len, s, a, b)
            };
            assert(acc[j as int].0 == self.names@[j as int]@);
            assert(self.names@[j as int]@.subrange(0, len as int) =~= self.names@[j as int]@);
            if same {
                break;
            }
            j += 1;
        }
        proof {
            lemma_find_entry_is(acc, name, self.rule, j as int);
        }
        if j < self.names.len() {
            assert(merge_entry(acc, (name, q as int), self.rule)[j as int].1 == combine(self.rule, acc[j as int].1, q as int));
            assert(acc[j as int].1 == self.qtys@[j as int]);
            assert(merge_entry(old(self).entries(), (name, q as int), old(self).rule())[j as int].1 <= i64::MAX);
            let cur = self.qtys[j];
            let nq = if self.rule.keep_max {
                if cur >= q {
                    cur
                } else {
                    q
                }
            } else {
                cur + q
            };
            self.qtys.set(j, nq);
        } else {
            self.names.push(slice_chars(s, a, b));
            self.qtys.push(q);
        }
        assert(self.entries() =~= merge_entry(acc, (name, q as int), self.rule));
    }

    /// Under a rule that keeps the larger quantity, folding in an entry whose
    /// quantity fits an `i64` leaves every quantity fitting one.
    pub proof fn lemma_keep_max_fits(&self, e: (Seq<char>, int))
        requires
            self.wf(),
            self.rule().keep_max,
            e.1 <= i64::MAX,
        ensures
            forall|i: int|
                0 <= i < self.entries().len() ==> #[trigger] merge_entry(self.entries(), e, self.rule())[i].1
                    <= i64::MAX,
    {
        assert forall|i: int| 0 <= i < self.entries().len() implies #[trigger] merge_entry(self.entries(), e, self.rule())[i].1 <= i64::MAX by {
            assert(self.entries()[i].1 == self.qtys@[i]);
        }
    }

    /// Number of entries.
    pub fn len(&self) -> (n: usize)
        requires
            self.wf(),
        ensures
            n == self.entries().len(),
    {
        self.names.len()
    }

    /// Characters of the `i`-th name.
    pub fn name_chars(&self, i: usize) -> (r: &Vec<char>)
        requires
            self.wf(),
            i < self.entries().len(),
        ensures
            r@ == self.entries()[i as int].0,
    {
        &self.names[i]
    }

    /// Quantity of the `i`-th entry.
    pub fn qty(&self, i: usize) -> (q: i64)
        requires
            self.wf(),
            i < self.entries().len(),
        ensures
            q == self.entries()[i as int].1,
    {
        self.qtys[i]
    }
}

} // verus!
