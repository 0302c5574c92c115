//! Wormhole chain mapping.
//!
//! Mapped connections are walked outward from a root system, breadth-first,
//! listing every reachable system with its hop distance and whether the path
//! that reached it crosses an end-of-life or mass-critical hole; the flags
//! carry on to everything beyond such a hole. Neighbours are visited in name
//! order, so the result is deterministic.

use vstd::prelude::*;
use crate::text::{seq_lt, lemma_seq_lt_order, chars_lt, chars_of, range_eq, str_eq, slice_chars, string_from_chars};

verus! {

/// One mapped wormhole connection between two systems (usable both ways).
#[derive(Debug, Clone, PartialEq)]
pub struct ChainLink {
    pub from: String,
    pub to: String,
    /// "stable", "destab" or "critical".
    pub mass_state: String,
    /// End of life (less than about 4h left).
    pub eol: bool,
}

/// A system reachable from the chain root.
#[derive(Debug, Clone, PartialEq)]
pub struct ChainNode {
    pub system: String,
    /// Wormhole jumps from the root (the root itself is 0).
    pub hops: i64,
    /// The path that reached it crosses an end-of-life hole.
    pub via_eol: bool,
    /// The path that reached it crosses a mass-critical hole.
    pub via_critical: bool,
}

/// A link with both ends named.
pub open spec fn link_ok(l: ChainLink) -> bool {
    l.from@.len() > 0 && l.to@.len() > 0
}

/// `l` connects `u` and `q` (either way).
pub open spec fn joins(l: ChainLink, u: Seq<char>, q: Seq<char>) -> bool {
    link_ok(l) && ((l.from@ == u && l.to@ == q) || (l.to@ == u && l.from@ == q))
}

/// `s` (ascending, no repeats) with `x` added in its place, if not there.
pub open spec fn insert_sorted(s: Seq<Seq<char>>, x: Seq<char>) -> Seq<Seq<char>>
    decreases s.len(),
{
    if s.len() == 0 {
        seq![x]
    } else if s[0] == x {
        s
    } else if seq_lt(x, s[0]) {
        seq![x] + s
    } else {
        seq![s[0]] + insert_sorted(s.drop_first(), x)
    }
}

/// The names of the systems linked to `u`, ascending, without repeats.
pub open spec fn nbr_names(links: Seq<ChainLink>, u: Seq<char>) -> Seq<Seq<char>>
    decreases links.len(),
{
    if links.len() == 0 {
        seq![]
    } else {
        let s = nbr_names(links.drop_last(), u);
        let l = links.last();
        let s1 = if link_ok(l) && l.from@ == u {
            insert_sorted(s, l.to@)
        } else {
            s
        };
        if link_ok(l) && l.to@ == u {
            insert_sorted(s1, l.from@)
        } else {
            s1
        }
    }
}

/// `(end of life, mass critical)` of the first link joining `u` and `q`.
pub open spec fn edge_flags(links: Seq<ChainLink>, u: Seq<char>, q: Seq<char>) -> (bool, bool)
    decreases links.len(),
{
    if links.len() == 0 {
        (false, false)
    } else if joins(links[0], u, q) {
        (links[0].eol, links[0].mass_state@ == "critical"@)
    } else {
        edge_flags(links.drop_first(), u, q)
    }
}

/// Some system in `found` is named `q`.
pub open spec fn has_name(found: Seq<(Seq<char>, int, bool, bool)>, q: Seq<char>) -> bool {
    exists|i: int| 0 <= i < found.len() && (#[trigger] found[i]).0 == q
}

/// `found` after visiting the neighbours `names` of `u`, in order: each one
/// not yet found is added one hop beyond `u`, with `u`'s flags joined with
/// those of the link that leads to it.
pub open spec fn expand_from(
    links: Seq<ChainLink>,
    found: Seq<(Seq<char>, int, bool, bool)>,
    u: (Seq<char>, int, bool, bool),
    names: Seq<Seq<char>>,
) -> Seq<(Seq<char>, int, bool, bool)>
    decreases names.len(),
{
    if names.len() == 0 {
        found
    } else {
        let q = names[0];
        let next = if has_name(found, q) {
            found
        } else {
            let f = edge_flags(links, u.0, q);
            found.push((q, u.1 + 1, u.2 || f.0, u.3 || f.1))
        };
        expand_from(links, next, u, names.drop_first())
    }
}

/// The breadth-first walk after `n` steps: the systems found, in the order
/// found, and how many of them have been visited.
pub open spec fn bfs_after(links: Seq<ChainLink>, root: Seq<char>, n: nat) -> (Seq<(Seq<char>, int, bool, bool)>, int)
    decreases n,
{
    if n == 0 {
        (seq![(root, 0int, false, false)], 0)
    } else {
        let st = bfs_after(links, root, (n - 1) as nat);
        if st.1 < st.0.len() {
            let u = st.0[st.1];
            (expand_from(links, st.0, u, nbr_names(links, u.0)), st.1 + 1)
        } else {
            st
        }
    }
}

/// Every system reachable from `root`, in the order the walk finds them,
/// as `(name, hops, via end-of-life, via critical)`.
pub open spec fn reached(root: Seq<char>, links: Seq<ChainLink>) -> Seq<(Seq<char>, int, bool, bool)> {
    bfs_after(links, root, (2 * links.len() + 1) as nat).0
}

/// `a` is listed before `b`: fewer hops, or as many and a name that sorts
/// first.
pub open spec fn chain_before(a: (Seq<char>, int, bool, bool), b: (Seq<char>, int, bool, bool)) -> bool {
    a.1 < b.1 || (a.1 == b.1 && seq_lt(a.0, b.0))
}

/// A node as `(name, hops, via end-of-life, via critical)`.
pub open spec fn node_view(n: ChainNode) -> (Seq<char>, int, bool, bool) {
    (n.system@, n.hops as int, n.via_eol, n.via_critical)
}

/// The nodes of a chain, viewed.
pub open spec fn chain_view(v: Seq<ChainNode>) -> Seq<(Seq<char>, int, bool, bool)> {
    v.map_values(|n: ChainNode| node_view(n))
}

/// The texts of a list of character vectors.
pub open spec fn texts(v: Seq<Vec<char>>) -> Seq<Seq<char>> {
    v.map_values(|c: Vec<char>| c@)
}

/// Every name a link gives an end.
pub open spec fn endpoints(links: Seq<ChainLink>) -> Set<Seq<char>> {
    Set::new(|x: Seq<char>| exists|k: int| 0 <= k < links.len() && (links[k].from@ == x || links[k].to@ == x))
}

/// The systems found so far are named once each, start with the root and
/// are otherwise link ends, and lie no more hops out than their position.
pub open spec fn found_ok(found: Seq<(Seq<char>, int, bool, bool)>, root: Seq<char>, links: Seq<ChainLink>) -> bool {
    &&& found.len() >= 1
    &&& found[0].0 == root
    &&& forall|i: int, j: int| 0 <= i < j < found.len() ==> (#[trigger] found[i]).0 != (#[trigger] found[j]).0
    &&& forall|i: int| 1 <= i < found.len() ==> endpoints(links).contains((#[trigger] found[i]).0)
    &&& forall|i: int| 0 <= i < found.len() ==> 0 <= (#[trigger] found[i]).1 <= i
}

proof fn lemma_insert_prefix(s: Seq<Seq<char>>, x: Seq<char>, i: int)
    requires
        0 <= i <= s.len(),
        forall|j: int| 0 <= j < i ==> s[j] != x && !seq_lt(x, #[trigger] s[j]),
    ensures
        insert_sorted(s, x) == s.take(i) + insert_sorted(s.skip(i), x),
    decreases i,
{
    if i == 0 {
        assert(s.take(0) + insert_sorted(s.skip(0), x) =~= insert_sorted(s, x)) by {
            assert(s.skip(0) =~= s);
        }
    } else {
        assert(s[0] != x && !seq_lt(x, s[0]));
        let d = s.drop_first();
        assert forall|j: int| 0 <= j < i - 1 implies d[j] != x && !seq_lt(x, #[trigger] d[j]) by {
            assert(d[j] == s[j + 1]);
        }
        lemma_insert_prefix(d, x, i - 1);
        assert(d.skip(i - 1) =~= s.skip(i));
        assert(seq![s[0]] + d.take(i - 1) =~= s.take(i));
    }
}

proof fn lemma_insert_elems(s: Seq<Seq<char>>, x: Seq<char>, y: Seq<char>)
    requires
        insert_sorted(s, x).contains(y),
    ensures
        y == x || s.contains(y),
    decreases s.len(),
{
    if s.len() > 0 && s[0] != x && !seq_lt(x, s[0]) {
        let t = insert_sorted(s.drop_first(), x);
        let r = seq![s[0]] + t;
        let k = choose|k: int| 0 <= k < r.len() && r[k] == y;
        if k > 0 {
            assert(t[k - 1] == y);
            lemma_insert_elems(s.drop_first(), x, y);
            if s.drop_first().contains(y) {
                let m = choose|m: int| 0 <= m < s.drop_first().len() && s.drop_first()[m] == y;
                assert(s[m + 1] == y);
            }
        } else {
            assert(s[0] == y);
        }
    } else if s.len() > 0 && s[0] != x && seq_lt(x, s[0]) {
        let r = seq![x] + s;
        let k = choose|k: int| 0 <= k < r.len() && r[k] == y;
        if k > 0 {
            assert(s[k - 1] == y);
        }
    } else if s.len() > 0 {
        let k = choose|k: int| 0 <= k < s.len() && s[k] == y;
        assert(s.contains(y));
    }
}

proof fn lemma_nbrs_are_endpoints(links: Seq<ChainLink>, u: Seq<char>, y: Seq<char>)
    requires
        nbr_names(links, u).contains(y),
    ensures
        endpoints(links).contains(y),
    decreases links.len(),
{
    let d = links.drop_last();
    let l = links.last();
    let s = nbr_names(d, u);
    let s1 = if link_ok(l) && l.from@ == u {
        insert_sorted(s, l.to@)
    } else {
        s
    };
    let n = links.len() - 1;
    assert(links[n] == l);
    if link_ok(l) && l.to@ == u {
        lemma_insert_elems(s1, l.from@, y);
    }
    if s1.contains(y) && link_ok(l) && l.from@ == u {
        lemma_insert_elems(s, l.to@, y);
    }
    if s.contains(y) {
        lemma_nbrs_are_endpoints(d, u, y);
        let k = choose|k: int| 0 <= k < d.len() && (d[k].from@ == y || d[k].to@ == y);
        assert(links[k] == d[k]);
    }
}

proof fn lemma_found_bounded(found: Seq<(Seq<char>, int, bool, bool)>, root: Seq<char>, links: Seq<ChainLink>)
    requires
        found_ok(found, root, links),
    ensures
        found.len() <= 2 * links.len() + 1,
{
    let names = found.map_values(|e: (Seq<char>, int, bool, bool)| e.0);
    let ends = Seq::new(2 * links.len(), |i: int| if i % 2 == 0 { links[i / 2].from@ } else { links[i / 2].to@ });
    assert(names.no_duplicates()) by {
        assert forall|i: int, j: int| 0 <= i < names.len() && 0 <= j < names.len() && i != j implies names[i] != names[j] by {
            if i < j {
                assert(found[i].0 != found[j].0);
            } else {
                assert(found[j].0 != found[i].0);
            }
        }
    }
    names.unique_seq_to_set();
    ends.lemma_cardinality_of_set();
    assert(names.to_set().subset_of(ends.to_set().insert(root))) by {
        assert forall|x: Seq<char>| names.to_set().contains(x) implies ends.to_set().insert(root).contains(x) by {
            let i = choose|i: int| 0 <= i < names.len() && names[i] == x;
            if i >= 1 {
                assert(endpoints(links).contains(found[i].0));
                let k = choose|k: int| 0 <= k < links.len() && (links[k].from@ == x || links[k].to@ == x);
                if links[k].from@ == x {
                    assert(ends[2 * k] == x);
                } else {
                    assert(ends[2 * k + 1] == x);
                }
            }
        }
    }
    vstd::set_lib::lemma_len_subset(names.to_set(), ends.to_set().insert(root));
}

proof fn lemma_bfs_stable(links: Seq<ChainLink>, root: Seq<char>, m: nat, n: nat)
    requires
        m <= n,
        bfs_after(links, root, m).1 == bfs_after(links, root, m).0.len(),
    ensures
        bfs_after(links, root, n) == bfs_after(links, root, m),
    decreases n - m,
{
    if n > m {
        lemma_bfs_stable(links, root, m, (n - 1) as nat);
    }
}

/// Adds `x` to the ascending, repeat-free list `s` in its place, if absent.
fn insert_name(s: &mut Vec<Vec<char>>, x: Vec<char>)
    ensures
        texts(final(s)@) == insert_sorted(texts(old(s)@), x@),
{
    let ghost t = texts(s@);
    let mut i: usize = 0;
    loop
        invariant
            i <= s@.len(),
            t == texts(s@),
            forall|j: int| 0 <= j < i ==> t[j] != x@ && !seq_lt(x@, #[trigger] t[j]),
        ensures
            i <= s@.len(),
            t == texts(s@),
            forall|j: int| 0 <= j < i ==> t[j] != x@ && !seq_lt(x@, #[trigger] t[j]),
            i < s@.len() ==> t[i as int] == x@ || seq_lt(x@, t[i as int]),
        decreases s@.len() - i,
    {
        if i == s.len() {
            break;
        }
        let len = s[i].len();
        let same = range_eq(&s[i], 0, len, &x, 0, x.len());
        assert(s@[i as int]@.subrange(0, len as int) =~= s@[i as int]@);
        assert(x@.subrange(0, x@.len() as int) =~= x@);
        assert(t[i as int] == s@[i as int]@);
        if same {
            break;
        }
        if chars_lt(&x, &s[i]) {
            break;
        }
        i += 1;
    }
    proof {
        lemma_insert_prefix(t, x@, i as int);
    }
    if i < s.len() {
        let len = s[i].len();
        if range_eq(&s[i], 0, len, &x, 0, x.len()) {
            assert(s@[i as int]@.subrange(0, len as int) =~= s@[i as int]@);
            assert(x@.subrange(0, x@.len() as int) =~= x@);
            assert(t.skip(i as int)[0] == t[i as int]);
            assert(t.take(i as int) + t.skip(i as int) =~= t);
            return;
        }
        assert(s@[i as int]@.subrange(0, len as int) =~= s@[i as int]@);
        assert(x@.subrange(0, x@.len() as int) =~= x@);
        assert(t.skip(i as int)[0] == t[i as int]);
    }
    let ghost xv = x@;
    s.insert(i, x);
    assert(texts(s@) =~= t.take(i as int) + insert_sorted(t.skip(i as int), xv));
}

/// Whether `v` holds exactly the characters of `s`.
fn same_text(v: &Vec<char>, s: &Vec<char>) -> (r: bool)
    ensures
        r == (v@ == s@),
{
    let r = range_eq(v, 0, v.len(), s, 0, s.len());
    assert(v@.subrange(0, v@.len() as int) =~= v@);
    assert(s@.subrange(0, s@.len() as int) =~= s@);
    r
}

/// The names linked to `u`, ascending, without repeats.
fn neighbour_names(links: &[ChainLink], u: &Vec<char>) -> (r: Vec<Vec<char>>)
    ensures
        texts(r@) == nbr_names(links@, u@),
{
    let mut s: Vec<Vec<char>> = Vec::new();
    let mut k: usize = 0;
    assert(links@.take(0) =~= seq![]);
    assert(texts(s@) =~= seq![]);
    while k < links.len()
        invariant
            k <= links@.len(),
            texts(s@) == nbr_names(links@.take(k as int), u@),
        decreases links@.len() - k,
    {
        let l = &links[k];
        proof {
            assert(links@.take(k + 1).drop_last() =~= links@.take(k as int));
            assert(links@.take(k + 1).last() == *l);
        }
        let fr = chars_of(l.from.as_str());
        let to = chars_of(l.to.as_str());
        let ok = fr.len() > 0 && to.len() > 0;
        if ok && same_text(&fr, u) {
            insert_name(&mut s, to);
        }
        let fr2 = chars_of(l.from.as_str());
        let to2 = chars_of(l.to.as_str());
        if ok && same_text(&to2, u) {
            insert_name(&mut s, fr2);
        }
        k += 1;
    }
    assert(links@.take(links@.len() as int) =~= links@);
    s
}

/// Flags of the first link joining `u` and `q` (see [`edge_flags`]).
fn first_edge_flags(links: &[ChainLink], u: &Vec<char>, q: &Vec<char>) -> (r: (bool, bool))
    ensures
        r == edge_flags(links@, u@, q@),
{
    let mut k: usize = 0;
    assert(links@.skip(0) =~= links@);
    while k < links.len()
        invariant
            k <= links@.len(),
            edge_flags(links@, u@, q@) == edge_flags(links@.skip(k as int), u@, q@),
        decreases links@.len() - k,
    {
        let l = &links[k];
        assert(links@.skip(k as int)[0] == *l);
        assert(links@.skip(k as int).drop_first() =~= links@.skip(k + 1));
        let fr = chars_of(l.from.as_str());
        let to = chars_of(l.to.as_str());
        let ok = fr.len() > 0 && to.len() > 0;
        if ok && ((same_text(&fr, u) && same_text(&to, q)) || (same_text(&to, u) && same_text(&fr, q))) {
            return (l.eol, str_eq(l.mass_state.as_str(), "critical"));
        }
        k += 1;
    }
    (false, false)
}

/// The systems found, viewed.
pub open spec fn found_view(f: Seq<(Vec<char>, i64, bool, bool)>) -> Seq<(Seq<char>, int, bool, bool)> {
    f.map_values(|e: (Vec<char>, i64, bool, bool)| (e.0@, e.1 as int, e.2, e.3))
}

/// Whether a system named `q` has been found.
fn is_found(found: &Vec<(Vec<char>, i64, bool, bool)>, q: &Vec<char>) -> (r: bool)
    ensures
        r == has_name(found_view(found@), q@),
{
    let mut i: usize = 0;
    while i < found.len()
        invariant
            i <= found@.len(),
            forall|j: int| 0 <= j < i ==> (#[trigger] found_view(found@)[j]).0 != q@,
        decreases found@.len() - i,
    {
        if same_text(&found[i].0, q) {
            assert(found_view(found@)[i as int].0 == q@);
            return true;
        }
        i += 1;
    }
    false
}

/// Visits the neighbours of the `head`-th found system.
fn visit(links: &[ChainLink], found: &mut Vec<(Vec<char>, i64, bool, bool)>, head: usize, Ghost(root): Ghost<Seq<char>>)
    requires
        head < old(found)@.len(),
        found_ok(found_view(old(found)@), root, links@),
        links@.len() < 0x3fff_ffff_ffff_ffff,
    ensures
        found_ok(found_view(final(found)@), root, links@),
        final(found)@.len() >= old(found)@.len(),
        found_view(final(found)@) == expand_from(
            links@,
            found_view(old(found)@),
            found_view(old(found)@)[head as int],
            nbr_names(links@, found_view(old(found)@)[head as int].0),
        ),
{
    let ghost f0 = found_view(found@);
    let name = slice_chars(&found[head].0, 0, found[head].0.len());
    assert(found@[head as int].0@.subrange(0, found@[head as int].0@.len() as int) =~= found@[head as int].0@);
    let hops = found[head].1;
    let ve = found[head].2;
    let vc = found[head].3;
    let ghost u = f0[head as int];
    assert(u == (name@, hops as int, ve, vc));
    let names = neighbour_names(links, &name);
    let ghost nv = texts(names@);
    let mut j: usize = 0;
    assert(nv.skip(0) =~= nv);
    while j < names.len()
        invariant
            j <= names@.len(),
            nv == texts(names@),
            nv == nbr_names(links@, u.0),
            u == (name@, hops as int, ve, vc),
            0 <= hops as int <= head,
            found@.len() >= f0.len(),
            head < found@.len(),
            links@.len() < 0x3fff_ffff_ffff_ffff,
            found_ok(found_view(found@), root, links@),
            expand_from(links@, f0, u, nv) == expand_from(links@, found_view(found@), u, nv.skip(j as int)),
        decreases names@.len() - j,
    {
        let ghost cur = found_view(found@);
        assert(nv.skip(j as int)[0] == nv[j as int]);
        assert(nv.skip(j as int).drop_first() =~= nv.skip(j + 1));
        assert(nv[j as int] == names@[j as int]@);
        if !is_found(found, &names[j]) {
            let (e, c) = first_edge_flags(links, &name, &names[j]);
            let q = slice_chars(&names[j], 0, names[j].len());
            assert(names@[j as int]@.subrange(0, names@[j as int]@.len() as int) =~= names@[j as int]@);
            proof {
                lemma_found_bounded(cur, root, links@);
                assert(nv.contains(nv[j as int]));
                lemma_nbrs_are_endpoints(links@, u.0, nv[j as int]);
            }
            found.push((q, hops + 1, ve || e, vc || c));
            proof {
                let nf = found_view(found@);
                assert(nf =~= cur.push((nv[j as int], hops + 1, ve || e, vc || c)));
                assert forall|a: int, b: int| 0 <= a < b < nf.len() implies (#[trigger] nf[a]).0 != (#[trigger] nf[b]).0 by {
                    if b == nf.len() - 1 {
                        assert(nf[a] == cur[a]);
                    } else {
                        assert(nf[a] == cur[a] && nf[b] == cur[b]);
                    }
                }
                assert forall|a: int| 1 <= a < nf.len() implies endpoints(links@).contains((#[trigger] nf[a]).0) by {
                    if a < cur.len() {
                        assert(nf[a] == cur[a]);
                    }
                }
                assert forall|a: int| 0 <= a < nf.len() implies 0 <= (#[trigger] nf[a]).1 <= a by {
                    if a < cur.len() {
                        assert(nf[a] == cur[a]);
                    }
                }
            }
        }
        j += 1;
    }
    assert(nv.skip(names@.len() as int) =~= seq![]);
}

/// Sorts chain nodes with distinct names by hops, then name.
fn sort_nodes(v: Vec<ChainNode>) -> (r: Vec<ChainNode>)
    requires
        forall|i: int, j: int| 0 <= i < j < v@.len() ==> (#[trigger] v@[i]).system@ != (#[trigger] v@[j]).system@,
    ensures
        r@.to_set() == v@.to_set(),
        r@.len() == v@.len(),
        forall|i: int, j: int| 0 <= i < j < r@.len() ==> chain_before(node_view(#[trigger] r@[i]), node_view(#[trigger] r@[j])),
{
    let ghost orig = v@;
    let mut v = v;
    let mut out: Vec<ChainNode> = Vec::new();
    while v.len() > 0
        invariant
            v@ == orig.take(v@.len() as int),
            v@.len() <= orig.len(),
            out@.len() + v@.len() == orig.len(),
            forall|i: int, j: int| 0 <= i < j < orig.len() ==> (#[trigger] orig[i]).system@ != (#[trigger] orig[j]).system@,
            out@.to_set() == orig.skip(v@.len() as int).to_set(),
            forall|i: int| 0 <= i < out@.len() ==> orig.skip(v@.len() as int).contains(#[trigger] out@[i]),
            forall|i: int, j: int| 0 <= i < j < out@.len() ==> chain_before(node_view(#[trigger] out@[i]), node_view(#[trigger] out@[j])),
        decreases v@.len(),
    {
        let ghost n0 = v@.len() as int;
        let x = v.pop().unwrap();
        let ghost s0 = orig.skip(n0);
        let ghost s1 = orig.skip(n0 - 1);
        proof {
            assert(x == orig[n0 - 1]);
            assert(s1 =~= seq![x] + s0);
        }
        let mut p: usize = 0;
        while p < out.len() && node_before(&out[p], &x)
            invariant
                p <= out@.len(),
                forall|i: int| 0 <= i < p ==> chain_before(node_view(#[trigger] out@[i]), node_view(x)),
            decreases out@.len() - p,
        {
            p += 1;
        }
        proof {
            assert forall|i: int| p <= i < out@.len() implies chain_before(node_view(x), node_view(#[trigger] out@[i])) by {
                assert(s0.contains(out@[i]));
                let m = choose|m: int| 0 <= m < s0.len() && #[trigger] s0[m] == out@[i];
                assert(orig[n0 + m] == out@[i]);
                assert(orig[n0 - 1].system@ != orig[n0 + m].system@);
                lemma_seq_lt_order(x.system@, out@[i].system@, out@[i].system@);
                lemma_seq_lt_order(x.system@, out@[p as int].system@, out@[i].system@);
                lemma_seq_lt_order(out@[p as int].system@, x.system@, out@[i].system@);
                if i > p {
                    assert(chain_before(node_view(out@[p as int]), node_view(out@[i])));
                    assert(s0.contains(out@[p as int]));
                    let m2 = choose|m2: int| 0 <= m2 < s0.len() && #[trigger] s0[m2] == out@[p as int];
                    assert(orig[n0 + m2] == out@[p as int]);
                }
            }
        }
        let ghost before = out@;
        out.insert(p, x);
        proof {
            assert(out@ =~= before.take(p as int).push(x) + before.skip(p as int));
            lemma_insert_to_set(before, p as int, x);
            assert(s1.to_set() =~= s0.to_set().insert(x)) by {
                assert forall|y: ChainNode| s1.to_set().contains(y) <==> s0.to_set().insert(x).contains(y) by {
                    if s1.contains(y) {
                        let i = choose|i: int| 0 <= i < s1.len() && #[trigger] s1[i] == y;
                        if i > 0 {
                            assert(s0[i - 1] == y);
                        }
                    }
                    if s0.contains(y) {
                        let i = choose|i: int| 0 <= i < s0.len() && #[trigger] s0[i] == y;
                        assert(s1[i + 1] == y);
                    }
                    if y == x {
                        assert(s1[0] == y);
                    }
                }
            }
            assert forall|i: int| 0 <= i < out@.len() implies s1.contains(#[trigger] out@[i]) by {
                if i == p {
                    assert(s1[0] == x);
                } else {
                    let y = out@[i];
                    if i < p {
                        assert(before[i] == y);
                    } else {
                        assert(before[i - 1] == y);
                    }
                    assert(s0.contains(y));
                    let m = choose|m: int| 0 <= m < s0.len() && #[trigger] s0[m] == y;
                    assert(s1[m + 1] == y);
                }
            }
            assert forall|i: int, j: int| 0 <= i < j < out@.len() implies chain_before(node_view(#[trigger] out@[i]), node_view(#[trigger] out@[j])) by {
                if j < p {
                    assert(out@[i] == before[i] && out@[j] == before[j]);
                } else if j == p {
                    assert(out@[i] == before[i]);
                } else if i < p {
                    assert(out@[i] == before[i] && out@[j] == before[j - 1]);
                    lemma_seq_lt_order(before[i].system@, x.system@, before[j - 1].system@);
                } else if i == p {
                    assert(out@[j] == before[j - 1]);
                } else {
                    assert(out@[i] == before[i - 1] && out@[j] == before[j - 1]);
                }
            }
        }
    }
    assert(orig.skip(0) =~= orig);
    out
}

proof fn lemma_insert_to_set(s: Seq<ChainNode>, p: int, x: ChainNode)
    requires
        0 <= p <= s.len(),
    ensures
        (s.take(p).push(x) + s.skip(p)).to_set() == s.to_set().insert(x),
{
    let t = s.take(p).push(x) + s.skip(p);
    assert forall|y: ChainNode| t.to_set().contains(y) implies s.to_set().insert(x).contains(y) by {
        let i = choose|i: int| 0 <= i < t.len() && t[i] == y;
        if i < p {
            assert(s[i] == y);
        } else if i > p {
            assert(s[i - 1] == y);
        }
    }
    assert forall|y: ChainNode| s.to_set().insert(x).contains(y) implies t.to_set().contains(y) by {
        if y == x {
            assert(t[p] == x);
        } else {
            let i = choose|i: int| 0 <= i < s.len() && s[i] == y;
            if i < p {
                assert(t[i] == y);
            } else {
                assert(t[i + 1] == y);
            }
        }
    }
    assert(t.to_set() =~= s.to_set().insert(x));
}

fn node_before(a: &ChainNode, b: &ChainNode) -> (r: bool)
    ensures
        r == chain_before(node_view(*a), node_view(*b)),
{
    a.hops < b.hops || (a.hops == b.hops && chars_lt(&chars_of(a.system.as_str()), &chars_of(b.system.as_str())))
}

/// Walks the mapped connections outward from `root`, breadth-first, and
/// lists every reachable system once, with its hop distance and whether the
/// path that reached it crosses an end-of-life or mass-critical hole;
/// neighbours are visited in name order, and of several links between two
/// systems the first one counts. The list is ordered by hops, then name.
pub fn build_chain(root: &str, links: &[ChainLink]) -> (r: Vec<ChainNode>)
    requires
        links@.len() < 0x3fff_ffff_ffff_ffff,
    ensures
        r@.len() == reached(root@, links@).len(),
        chain_view(r@).to_set() == reached(root@, links@).to_set(),
        forall|i: int, j: int| 0 <= i < j < r@.len() ==> chain_before(node_view(#[trigger] r@[i]), node_view(#[trigger] r@[j])),
{
    let ghost lv = links@;
    let ghost rv = root@;
    let mut found: Vec<(Vec<char>, i64, bool, bool)> = Vec::new();
    found.push((chars_of(root), 0, false, false));
    assert(found_view(found@) =~= seq![(rv, 0int, false, false)]);
    let mut head: usize = 0;
    while head < found.len()
        invariant
            lv == links@,
            links@.len() < 0x3fff_ffff_ffff_ffff,
            head <= found@.len(),
            found_ok(found_view(found@), rv, lv),
            bfs_after(lv, rv, head as nat) == (found_view(found@), head as int),
        decreases 2 * lv.len() + 1 - head,
    {
        proof {
            lemma_found_bounded(found_view(found@), rv, lv);
        }
        visit(links, &mut found, head, Ghost(rv));
        head += 1;
    }
    proof {
        lemma_found_bounded(found_view(found@), rv, lv);
        lemma_bfs_stable(lv, rv, head as nat, (2 * lv.len() + 1) as nat);
    }
    let ghost fv = found_view(found@);
    let mut nodes: Vec<ChainNode> = Vec::new();
    let mut i: usize = 0;
    while i < found.len()
        invariant
            fv == found_view(found@),
            i <= found@.len(),
            nodes@.len() == i,
            forall|m: int| 0 <= m < i ==> node_view(#[trigger] nodes@[m]) == fv[m],
        decreases found@.len() - i,
    {
        let e = &found[i];
        nodes.push(ChainNode {
            system: string_from_chars(e.0.as_slice()),
            hops: e.1,
            via_eol: e.2,
            via_critical: e.3,
        });
        i += 1;
    }
    assert(chain_view(nodes@) =~= fv);
    assert forall|a: int, b: int| 0 <= a < b < nodes@.len() implies (#[trigger] nodes@[a]).system@ != (#[trigger] nodes@[b]).system@ by {
        assert(node_view(nodes@[a]) == fv[a]);
        assert(node_view(nodes@[b]) == fv[b]);
    }
    let ghost nv = nodes@;
    let r = sort_nodes(nodes);
    proof {
        assert(chain_view(r@).to_set() =~= fv.to_set()) by {
            assert forall|y: (Seq<char>, int, bool, bool)| chain_view(r@).to_set().contains(y) <==> fv.to_set().contains(y) by {
                if chain_view(r@).to_set().contains(y) {
                    let i = choose|i: int| 0 <= i < chain_view(r@).len() && chain_view(r@)[i] == y;
                    assert(r@.to_set().contains(r@[i]));
                    let q = choose|q: int| 0 <= q < nv.len() && nv[q] == r@[i];
                    assert(fv[q] == y);
                }
                if fv.to_set().contains(y) {
                    let q = choose|q: int| 0 <= q < fv.len() && fv[q] == y;
                    assert(nv.to_set().contains(nv[q]));
                    let i = choose|i: int| 0 <= i < r@.len() && r@[i] == nv[q];
                    assert(chain_view(r@)[i] == y);
                }
            }
        }
    }
    r
}

/// Some link joins `u` and `q`.
pub open spec fn linked(links: Seq<ChainLink>, u: Seq<char>, q: Seq<char>) -> bool {
    exists|k: int| 0 <= k < links.len() && joins(#[trigger] links[k], u, q)
}

/// `p` is a walk from `root` across links: it starts at the root and each
/// system in it is linked to the next.
pub open spec fn is_walk(links: Seq<ChainLink>, root: Seq<char>, p: Seq<Seq<char>>) -> bool {
    &&& p.len() >= 1
    &&& p[0] == root
    &&& forall|k: int| 0 <= k < p.len() - 1 ==> linked(links, #[trigger] p[k], p[k + 1])
}

proof fn lemma_insert_has(s: Seq<Seq<char>>, x: Seq<char>, y: Seq<char>)
    requires
        y == x || s.contains(y),
    ensures
        insert_sorted(s, x).contains(y),
    decreases s.len(),
{
    if s.len() == 0 {
        assert(insert_sorted(s, x)[0] == x);
    } else if s[0] == x {
        if y == x {
            assert(s[0] == y);
        }
    } else if seq_lt(x, s[0]) {
        let r = seq![x] + s;
        if y == x {
            assert(r[0] == y);
        } else {
            let k = choose|k: int| 0 <= k < s.len() && s[k] == y;
            assert(r[k + 1] == y);
        }
    } else {
        let d = s.drop_first();
        let r = seq![s[0]] + insert_sorted(d, x);
        if y == s[0] {
            assert(r[0] == y);
        } else {
            if y != x {
                let k = choose|k: int| 0 <= k < s.len() && s[k] == y;
                assert(k > 0);
                assert(d[k - 1] == y);
            }
            lemma_insert_has(d, x, y);
            let t = insert_sorted(d, x);
            let m = choose|m: int| 0 <= m < t.len() && t[m] == y;
            assert(r[m + 1] == y);
        }
    }
}

proof fn lemma_nbr_names_linked(links: Seq<ChainLink>, u: Seq<char>, q: Seq<char>)
    ensures
        nbr_names(links, u).contains(q) <==> linked(links, u, q),
    decreases links.len(),
{
    if links.len() == 0 {
    } else {
        let d = links.drop_last();
        let l = links.last();
        let n = links.len() - 1;
        assert(links[n] == l);
        lemma_nbr_names_linked(d, u, q);
        let s = nbr_names(d, u);
        let s1 = if link_ok(l) && l.from@ == u {
            insert_sorted(s, l.to@)
        } else {
            s
        };
        if nbr_names(links, u).contains(q) {
            if link_ok(l) && l.to@ == u {
                lemma_insert_elems(s1, l.from@, q);
            }
            if s1.contains(q) && link_ok(l) && l.from@ == u {
                lemma_insert_elems(s, l.to@, q);
            }
            if s.contains(q) {
                let k = choose|k: int| 0 <= k < d.len() && joins(#[trigger] d[k], u, q);
                assert(links[k] == d[k]);
            } else {
                assert(joins(links[n], u, q));
            }
        }
        if linked(links, u, q) {
            let k = choose|k: int| 0 <= k < links.len() && joins(#[trigger] links[k], u, q);
            if k < n {
                assert(d[k] == links[k]);
                assert(s.contains(q));
            }
            if link_ok(l) && l.from@ == u {
                if s.contains(q) || q == l.to@ {
                    lemma_insert_has(s, l.to@, q);
                }
            }
            if link_ok(l) && l.to@ == u {
                if s1.contains(q) || q == l.from@ {
                    lemma_insert_has(s1, l.from@, q);
                }
            }
            if k == n {
                assert(joins(l, u, q));
            }
        }
    }
}

/// The `i`-th system found was found from an earlier system among the first
/// `h` that it is linked to, one hop further, inheriting its flags.
spec fn has_parent(links: Seq<ChainLink>, f: Seq<(Seq<char>, int, bool, bool)>, h: int, i: int) -> bool {
    exists|p: int|
        0 <= p < i && p < h && linked(links, f[p].0, f[i].0) && f[i].1 == f[p].1 + 1 && (f[p].2 ==> f[i].2) && (f[p].3
            ==> f[i].3)
}

/// Each system after the root has a parent (see [`has_parent`]).
#[verifier::opaque]
spec fn parents_ok(links: Seq<ChainLink>, f: Seq<(Seq<char>, int, bool, bool)>, h: int) -> bool {
    forall|i: int| 1 <= i < f.len() ==> #[trigger] has_parent(links, f, h, i)
}

/// Some system in `f` is named `q` and lies at most `bound` hops out.
spec fn found_near(f: Seq<(Seq<char>, int, bool, bool)>, q: Seq<char>, bound: int) -> bool {
    exists|j: int| 0 <= j < f.len() && f[j].0 == q && f[j].1 <= bound
}

/// Every neighbour of each of the first `h` systems has been found at most
/// one hop beyond it.
#[verifier::opaque]
spec fn closure_ok(links: Seq<ChainLink>, f: Seq<(Seq<char>, int, bool, bool)>, h: int) -> bool {
    forall|i: int, q: Seq<char>|
        0 <= i < h && #[trigger] linked(links, f[i].0, q) ==> found_near(f, q, f[i].1 + 1)
}

/// Hop counts never decrease along `f`.
spec fn hops_sorted(f: Seq<(Seq<char>, int, bool, bool)>) -> bool {
    forall|i: int, j: int| 0 <= i <= j < f.len() ==> (#[trigger] f[i]).1 <= (#[trigger] f[j]).1
}

/// What a breadth-first state keeps: the systems found are named once
/// each, lie no more hops out than their position, have nondecreasing hop
/// counts, and the unvisited ones lie at most one hop beyond the next to
/// visit; each system after the root was found from a visited one (see
/// [`parents_ok`]); every neighbour of a visited system has been found (see
/// [`closure_ok`]).
spec fn bfs_inv(links: Seq<ChainLink>, root: Seq<char>, f: Seq<(Seq<char>, int, bool, bool)>, h: int) -> bool {
    &&& found_ok(f, root, links)
    &&& 0 <= h <= f.len()
    &&& f[0] == (root, 0int, false, false)
    &&& hops_sorted(f)
    &&& h < f.len() ==> f[f.len() - 1].1 <= f[h].1 + 1
    &&& parents_ok(links, f, h)
    &&& closure_ok(links, f, h)
}

proof fn lemma_expand(
    links: Seq<ChainLink>,
    f: Seq<(Seq<char>, int, bool, bool)>,
    u: (Seq<char>, int, bool, bool),
    names: Seq<Seq<char>>,
)
    ensures
        expand_from(links, f, u, names).len() >= f.len(),
        expand_from(links, f, u, names).take(f.len() as int) == f,
        forall|j: int|
            f.len() <= j < expand_from(links, f, u, names).len() ==> names.contains(
                (#[trigger] expand_from(links, f, u, names)[j]).0,
            ) && expand_from(links, f, u, names)[j].1 == u.1 + 1 && !has_name(f, expand_from(links, f, u, names)[j].0)
                && (u.2 ==> expand_from(links, f, u, names)[j].2) && (u.3 ==> expand_from(links, f, u, names)[j].3),
        forall|i: int, j: int|
            f.len() <= j < expand_from(links, f, u, names).len() && 0 <= i < j ==> (#[trigger] expand_from(
                links,
                f,
                u,
                names,
            )[i]).0 != (#[trigger] expand_from(links, f, u, names)[j]).0,
        forall|k: int| 0 <= k < names.len() ==> has_name(expand_from(links, f, u, names), #[trigger] names[k]),
    decreases names.len(),
{
    if names.len() > 0 {
        let q = names[0];
        let rest = names.drop_first();
        let next = if has_name(f, q) {
            f
        } else {
            let fl = edge_flags(links, u.0, q);
            f.push((q, u.1 + 1, u.2 || fl.0, u.3 || fl.1))
        };
        lemma_expand(links, next, u, rest);
        let r = expand_from(links, next, u, rest);
        assert(r == expand_from(links, f, u, names));
        assert(next.take(f.len() as int) =~= f);
        assert(r.take(f.len() as int) =~= f) by {
            assert forall|i: int| 0 <= i < f.len() implies r[i] == f[i] by {
                assert(r.take(next.len() as int)[i] == next[i]);
            }
        }
        assert forall|j: int| f.len() <= j < r.len() implies names.contains((#[trigger] r[j]).0) && r[j].1 == u.1 + 1
            && !has_name(f, r[j].0) && (u.2 ==> r[j].2) && (u.3 ==> r[j].3) by {
            if j < next.len() {
                assert(r.take(next.len() as int)[j] == next[j]);
                assert(names[0] == q);
            } else {
                assert(rest.contains(r[j].0));
                let k = choose|k: int| 0 <= k < rest.len() && rest[k] == r[j].0;
                assert(names[k + 1] == r[j].0);
                if has_name(f, r[j].0) {
                    let m = choose|m: int| 0 <= m < f.len() && (#[trigger] f[m]).0 == r[j].0;
                    assert(next[m] == f[m]);
                }
            }
        }
        assert forall|i: int, j: int| f.len() <= j < r.len() && 0 <= i < j implies (#[trigger] r[i]).0 != (
        #[trigger] r[j]).0 by {
            if j < next.len() {
                assert(r.take(next.len() as int)[j] == next[j]);
                assert(r.take(next.len() as int)[i] == next[i]);
                assert(next[i] == f[i]);
                if f[i].0 == q {
                    assert(has_name(f, q));
                }
            }
        }
        assert forall|k: int| 0 <= k < names.len() implies has_name(r, #[trigger] names[k]) by {
            if k == 0 {
                if has_name(f, q) {
                    let m = choose|m: int| 0 <= m < f.len() && (#[trigger] f[m]).0 == q;
                    assert(r.take(f.len() as int)[m] == f[m]);
                } else {
                    let m = f.len() as int;
                    assert(next[m].0 == q);
                    assert(r.take(next.len() as int)[m] == next[m]);
                }
            } else {
                assert(names[k] == rest[k - 1]);
            }
        }
    }
}

/// `r` is `f` with systems added after it, each named in `names`, not in
/// `f`, one hop beyond `u` and with `u`'s flags, all named differently, and
/// every name of `names` is found in `r`.
spec fn expands(
    f: Seq<(Seq<char>, int, bool, bool)>,
    r: Seq<(Seq<char>, int, bool, bool)>,
    u: (Seq<char>, int, bool, bool),
    names: Seq<Seq<char>>,
) -> bool {
    &&& r.len() >= f.len()
    &&& forall|i: int| 0 <= i < f.len() ==> #[trigger] r[i] == f[i]
    &&& forall|j: int|
        f.len() <= j < r.len() ==> names.contains((#[trigger] r[j]).0) && r[j].1 == u.1 + 1 && !has_name(f, r[j].0)
            && (u.2 ==> r[j].2) && (u.3 ==> r[j].3)
    &&& forall|i: int, j: int| f.len() <= j < r.len() && 0 <= i < j ==> (#[trigger] r[i]).0 != (#[trigger] r[j]).0
    &&& forall|k: int| 0 <= k < names.len() ==> has_name(r, #[trigger] names[k])
}

proof fn lemma_expands(
    links: Seq<ChainLink>,
    f: Seq<(Seq<char>, int, bool, bool)>,
    u: (Seq<char>, int, bool, bool),
    names: Seq<Seq<char>>,
)
    ensures
        expands(f, expand_from(links, f, u, names), u, names),
{
    lemma_expand(links, f, u, names);
    let r = expand_from(links, f, u, names);
    assert forall|i: int| 0 <= i < f.len() implies #[trigger] r[i] == f[i] by {
        assert(r.take(f.len() as int)[i] == f[i]);
    }
}

proof fn lemma_step_shape(
    links: Seq<ChainLink>,
    root: Seq<char>,
    f: Seq<(Seq<char>, int, bool, bool)>,
    h: int,
    r: Seq<(Seq<char>, int, bool, bool)>,
)
    requires
        bfs_inv(links, root, f, h),
        h < f.len(),
        expands(f, r, f[h], nbr_names(links, f[h].0)),
    ensures
        found_ok(r, root, links),
        r[0] == (root, 0int, false, false),
        hops_sorted(r),
        h + 1 < r.len() ==> r[r.len() - 1].1 <= r[h + 1].1 + 1,
{
    let u = f[h];
    let names = nbr_names(links, u.0);
    let n = f.len() as int;
    assert(u.1 <= h);
    assert(r[0] == f[0]);
    assert forall|i: int, j: int| 0 <= i < j < r.len() implies (#[trigger] r[i]).0 != (#[trigger] r[j]).0 by {
        if j < n {
            assert(r[i] == f[i] && r[j] == f[j]);
        }
    }
    assert forall|i: int| 1 <= i < r.len() implies endpoints(links).contains((#[trigger] r[i]).0) by {
        if i >= n {
            lemma_nbrs_are_endpoints(links, u.0, r[i].0);
        } else {
            assert(r[i] == f[i]);
        }
    }
    assert forall|i: int| 0 <= i < r.len() implies 0 <= (#[trigger] r[i]).1 <= i by {
        if i < n {
            assert(r[i] == f[i]);
        }
    }
    assert(f[n - 1].1 <= u.1 + 1);
    assert forall|i: int, j: int| 0 <= i <= j < r.len() implies (#[trigger] r[i]).1 <= (#[trigger] r[j]).1 by {
        if j < n {
            assert(r[i] == f[i] && r[j] == f[j]);
            assert(f[i].1 <= f[j].1);
        } else if i < n {
            assert(r[i] == f[i]);
            assert(f[i].1 <= f[n - 1].1);
        }
    }
    if h + 1 < r.len() {
        let last = r.len() - 1;
        if last < n {
            assert(r[last] == f[last]);
        }
        assert(r[h] == f[h]);
        assert(r[h].1 <= r[h + 1].1);
    }
}

proof fn lemma_step_parents(
    links: Seq<ChainLink>,
    root: Seq<char>,
    f: Seq<(Seq<char>, int, bool, bool)>,
    h: int,
    r: Seq<(Seq<char>, int, bool, bool)>,
)
    requires
        bfs_inv(links, root, f, h),
        h < f.len(),
        expands(f, r, f[h], nbr_names(links, f[h].0)),
    ensures
        parents_ok(links, r, h + 1),
{
    let u = f[h];
    let names = nbr_names(links, u.0);
    let n = f.len() as int;
    reveal(parents_ok);
    assert forall|i: int| 1 <= i < r.len() implies #[trigger] has_parent(links, r, h + 1, i) by {
        if i < n {
            assert(has_parent(links, f, h, i));
            let p = choose|p: int|
                0 <= p < i && p < h && linked(links, f[p].0, f[i].0) && f[i].1 == f[p].1 + 1 && (f[p].2 ==> f[i].2)
                    && (f[p].3 ==> f[i].3);
            assert(r[p] == f[p] && r[i] == f[i]);
        } else {
            lemma_nbr_names_linked(links, u.0, r[i].0);
            assert(r[h] == u);
        }
    }
}

proof fn lemma_step_closure(
    links: Seq<ChainLink>,
    root: Seq<char>,
    f: Seq<(Seq<char>, int, bool, bool)>,
    h: int,
    r: Seq<(Seq<char>, int, bool, bool)>,
)
    requires
        bfs_inv(links, root, f, h),
        h < f.len(),
        expands(f, r, f[h], nbr_names(links, f[h].0)),
    ensures
        closure_ok(links, r, h + 1),
{
    let u = f[h];
    let names = nbr_names(links, u.0);
    let n = f.len() as int;
    reveal(closure_ok);
    assert(f[n - 1].1 <= u.1 + 1);
    assert forall|i: int, q: Seq<char>| 0 <= i < h + 1 && #[trigger] linked(links, r[i].0, q) implies found_near(
        r,
        q,
        r[i].1 + 1,
    ) by {
        assert(r[i] == f[i]);
        if i < h {
            assert(found_near(f, q, f[i].1 + 1));
            let j = choose|j: int| 0 <= j < f.len() && f[j].0 == q && f[j].1 <= f[i].1 + 1;
            assert(r[j] == f[j]);
        } else {
            lemma_nbr_names_linked(links, u.0, q);
            let k = choose|k: int| 0 <= k < names.len() && names[k] == q;
            assert(has_name(r, names[k]));
            let j = choose|j: int| 0 <= j < r.len() && (#[trigger] r[j]).0 == q;
            if j < n {
                assert(r[j] == f[j]);
                assert(f[j].1 <= f[n - 1].1);
            }
        }
    }
}

proof fn lemma_bfs_step(links: Seq<ChainLink>, root: Seq<char>, f: Seq<(Seq<char>, int, bool, bool)>, h: int)
    requires
        bfs_inv(links, root, f, h),
        h < f.len(),
    ensures
        bfs_inv(links, root, expand_from(links, f, f[h], nbr_names(links, f[h].0)), h + 1),
{
    let r = expand_from(links, f, f[h], nbr_names(links, f[h].0));
    lemma_expands(links, f, f[h], nbr_names(links, f[h].0));
    lemma_step_shape(links, root, f, h, r);
    lemma_step_parents(links, root, f, h, r);
    lemma_step_closure(links, root, f, h, r);
}

proof fn lemma_bfs_inv(links: Seq<ChainLink>, root: Seq<char>, m: nat)
    ensures
        bfs_inv(links, root, bfs_after(links, root, m).0, bfs_after(links, root, m).1),
        bfs_after(links, root, m).1 == m || bfs_after(links, root, m).1 == bfs_after(links, root, m).0.len(),
    decreases m,
{
    if m == 0 {
        let f = seq![(root, 0int, false, false)];
        assert(found_ok(f, root, links));
        reveal(parents_ok);
        reveal(closure_ok);
    } else {
        lemma_bfs_inv(links, root, (m - 1) as nat);
        let st = bfs_after(links, root, (m - 1) as nat);
        if st.1 < st.0.len() {
            lemma_bfs_step(links, root, st.0, st.1);
        }
    }
}

/// The walk from the root finds the systems reachable from it, each at its
/// distance: every listed system is reached from a listed neighbour one hop
/// nearer, whose end-of-life and mass-critical flags it inherits, and can
/// be walked to from the root in its hop count; and the last system of any
/// walk from the root is listed with no more hops than the walk crosses
/// links. So the hop count is the shortest distance, and a risky hole on
/// the path taints everything beyond it.
pub proof fn lemma_reached_hops_are_distances(root: Seq<char>, links: Seq<ChainLink>)
    ensures
        reached(root, links).len() >= 1,
        reached(root, links)[0] == (root, 0int, false, false),
        forall|i: int|
            1 <= i < reached(root, links).len() ==> exists|p: int|
                #![trigger reached(root, links)[p]]
                0 <= p < i && linked(links, reached(root, links)[p].0, (#[trigger] reached(root, links)[i]).0)
                    && reached(root, links)[i].1 == reached(root, links)[p].1 + 1 && (reached(root, links)[p].2
                    ==> reached(root, links)[i].2) && (reached(root, links)[p].3 ==> reached(root, links)[i].3),
        forall|i: int|
            0 <= i < reached(root, links).len() ==> exists|w: Seq<Seq<char>>|
                is_walk(links, root, w) && w.len() == (#[trigger] reached(root, links)[i]).1 + 1 && w.last()
                    == reached(root, links)[i].0,
        forall|w: Seq<Seq<char>>|
            #[trigger] is_walk(links, root, w) ==> exists|i: int|
                0 <= i < reached(root, links).len() && (#[trigger] reached(root, links)[i]).0 == w.last()
                    && reached(root, links)[i].1 <= w.len() - 1,
{
    let steps = (2 * links.len() + 1) as nat;
    lemma_bfs_inv(links, root, steps);
    let st = bfs_after(links, root, steps);
    let f = st.0;
    lemma_found_bounded(f, root, links);
    assert(st.1 == f.len());
    reveal(parents_ok);
    assert forall|i: int| 1 <= i < f.len() implies exists|p: int|
        #![trigger f[p]]
        0 <= p < i && linked(links, f[p].0, (#[trigger] f[i]).0) && f[i].1 == f[p].1 + 1 && (f[p].2 ==> f[i].2)
            && (f[p].3 ==> f[i].3) by {
        assert(has_parent(links, f, st.1, i));
        let p = choose|p: int|
            0 <= p < i && p < st.1 && linked(links, f[p].0, f[i].0) && f[i].1 == f[p].1 + 1 && (f[p].2 ==> f[i].2)
                && (f[p].3 ==> f[i].3);
        assert(f[p] == f[p]);
    }
    assert forall|i: int| 0 <= i < f.len() implies exists|w: Seq<Seq<char>>|
        is_walk(links, root, w) && w.len() == (#[trigger] f[i]).1 + 1 && w.last() == f[i].0 by {
        let w = walk_to(links, root, f, st.1, i);
    }
    assert forall|w: Seq<Seq<char>>| #[trigger] is_walk(links, root, w) implies exists|i: int|
        0 <= i < f.len() && (#[trigger] f[i]).0 == w.last() && f[i].1 <= w.len() - 1 by {
        lemma_walk_found(links, root, f, w);
    }
}

/// A walk from the root to the `i`-th system found, crossing its hop count
/// of links.
proof fn walk_to(links: Seq<ChainLink>, root: Seq<char>, f: Seq<(Seq<char>, int, bool, bool)>, h: int, i: int) -> (w: Seq<
    Seq<char>,
>)
    requires
        bfs_inv(links, root, f, h),
        0 <= i < f.len(),
    ensures
        is_walk(links, root, w),
        w.len() == f[i].1 + 1,
        w.last() == f[i].0,
    decreases i,
{
    reveal(parents_ok);
    if i == 0 {
        seq![root]
    } else {
        assert(has_parent(links, f, h, i));
        let p = choose|p: int|
            0 <= p < i && p < h && linked(links, f[p].0, f[i].0) && f[i].1 == f[p].1 + 1 && (f[p].2 ==> f[i].2) && (f[p].3
                ==> f[i].3);
        let v = walk_to(links, root, f, h, p);
        let w = v.push(f[i].0);
        assert forall|k: int| 0 <= k < w.len() - 1 implies linked(links, #[trigger] w[k], w[k + 1]) by {
            if k < v.len() - 1 {
                assert(w[k] == v[k] && w[k + 1] == v[k + 1]);
            } else {
                assert(w[k] == v.last());
            }
        }
        w
    }
}

proof fn lemma_walk_found(links: Seq<ChainLink>, root: Seq<char>, f: Seq<(Seq<char>, int, bool, bool)>, w: Seq<Seq<char>>)
    requires
        bfs_inv(links, root, f, f.len() as int),
        is_walk(links, root, w),
    ensures
        exists|i: int| 0 <= i < f.len() && (#[trigger] f[i]).0 == w.last() && f[i].1 <= w.len() - 1,
    decreases w.len(),
{
    reveal(closure_ok);
    if w.len() == 1 {
        assert(f[0].0 == w.last());
    } else {
        let v = w.drop_last();
        assert(is_walk(links, root, v)) by {
            assert forall|k: int| 0 <= k < v.len() - 1 implies linked(links, #[trigger] v[k], v[k + 1]) by {
                assert(v[k] == w[k] && v[k + 1] == w[k + 1]);
            }
        }
        lemma_walk_found(links, root, f, v);
        let i = choose|i: int| 0 <= i < f.len() && (#[trigger] f[i]).0 == v.last() && f[i].1 <= v.len() - 1;
        let n = w.len() - 2;
        assert(linked(links, w[n], w[n + 1]));
        assert(w[n] == v.last());
        assert(linked(links, f[i].0, w.last()));
        assert(found_near(f, w.last(), f[i].1 + 1));
        let j = choose|j: int| 0 <= j < f.len() && f[j].0 == w.last() && f[j].1 <= f[i].1 + 1;
        assert(f[j].0 == w.last());
    }
}

} // verus!
