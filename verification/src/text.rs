//! Character-level text helpers shared by the parsers.
//!
//! Text is modelled as `Seq<char>` (the view of `str` and `String`); the
//! executable helpers work on a `Vec<char>` copy addressed by index ranges.

use vstd::prelude::*;

verus! {

/// Unicode `White_Space`, the set that `char::is_whitespace` and `str::trim`
/// use.
pub open spec fn is_ws(c: char) -> bool {
    ||| ('\u{9}' <= c && c <= '\u{d}')
    ||| c == ' '
    ||| c == '\u{85}'
    ||| c == '\u{a0}'
    ||| c == '\u{1680}'
    ||| ('\u{2000}' <= c && c <= '\u{200a}')
    ||| c == '\u{2028}'
    ||| c == '\u{2029}'
    ||| c == '\u{202f}'
    ||| c == '\u{205f}'
    ||| c == '\u{3000}'
}

/// `s` without its leading whitespace.
pub open spec fn trim_start(s: Seq<char>) -> Seq<char>
    decreases s.len(),
{
    if s.len() > 0 && is_ws(s[0]) {
        trim_start(s.drop_first())
    } else {
        s
    }
}

/// `s` without its trailing whitespace.
pub open spec fn trim_end(s: Seq<char>) -> Seq<char>
    decreases s.len(),
{
    if s.len() > 0 && is_ws(s.last()) {
        trim_end(s.drop_last())
    } else {
        s
    }
}

/// `s` without leading and trailing whitespace (`str::trim`).
pub open spec fn trim(s: Seq<char>) -> Seq<char> {
    trim_end(trim_start(s))
}

/// The characters of `s`, in order.
pub fn chars_of(s: &str) -> (r: Vec<char>)
    ensures
        r@ == s@,
{
    let mut v: Vec<char> = Vec::new();
    for c in it: s.chars()
        invariant
            v@ == it.seq().take(it.index()),
    {
        v.push(c);
    }
    v
}

/// Builds a `String` holding exactly the characters of `v`.
/// Calls `FromIterator<char> for String` (through `Iterator::collect`); the
/// contract states the documented result: the characters in order.
#[verifier::external_body]
pub(crate) fn string_from_chars(v: &[char]) -> (r: String)
    ensures
        r@ == v@,
{
    v.iter().collect()
}

/// Appends `c` to `s` (`String::push`).
#[verifier::external_body]
pub(crate) fn push_char(s: &mut String, c: char)
    ensures
        final(s)@ == old(s)@.push(c),
{
    s.push(c)
}

/// Whether `a[a0..a1]` and `b[b0..b1]` hold the same characters.
pub fn range_eq(a: &Vec<char>, a0: usize, a1: usize, b: &Vec<char>, b0: usize, b1: usize) -> (r: bool)
    requires
        a0 <= a1 <= a.len(),
        b0 <= b1 <= b.len(),
    ensures
        r == (a@.subrange(a0 as int, a1 as int) == b@.subrange(b0 as int, b1 as int)),
{
    if a1 - a0 != b1 - b0 {
        assert(a@.subrange(a0 as int, a1 as int).len() != b@.subrange(b0 as int, b1 as int).len());
        return false;
    }
    let n = a1 - a0;
    let mut k: usize = 0;
    while k < n
        invariant
            n == a1 - a0,
            n == b1 - b0,
            a0 <= a1 <= a.len(),
            b0 <= b1 <= b.len(),
            k <= n,
            forall|j: int| a0 <= j < a0 + k ==> #[trigger] a@[j] == b@[j - a0 + b0],
        decreases n - k,
    {
        if a[a0 + k] != b[b0 + k] {
            assert(a@.subrange(a0 as int, a1 as int)[k as int] != b@.subrange(b0 as int, b1 as int)[k as int]);
            return false;
        }
        k += 1;
    }
    assert forall|j: int| 0 <= j < n implies a@.subrange(a0 as int, a1 as int)[j] == b@.subrange(b0 as int, b1 as int)[j] by {
        assert(a@[a0 + j] == b@[b0 + j]);
    }
    assert(a@.subrange(a0 as int, a1 as int) =~= b@.subrange(b0 as int, b1 as int));
    true
}

/// A copy of `s[a..b]`.
pub fn slice_chars(s: &Vec<char>, a: usize, b: usize) -> (r: Vec<char>)
    requires
        a <= b <= s.len(),
    ensures
        r@ == s@.subrange(a as int, b as int),
{
    let mut r: Vec<char> = Vec::new();
    let mut k = a;
    while k < b
        invariant
            a <= k <= b <= s.len(),
            r@ == s@.subrange(a as int, k as int),
        decreases b - k,
    {
        r.push(s[k]);
        assert(s@.subrange(a as int, k + 1) =~= s@.subrange(a as int, k as int).push(s@[k as int]));
        k += 1;
    }
    r
}

/// Whether two strings are equal (`str == str`).
pub fn str_eq(a: &str, b: &str) -> (r: bool)
    ensures
        r == (a@ == b@),
{
    let x = chars_of(a);
    let y = chars_of(b);
    let r = range_eq(&x, 0, x.len(), &y, 0, y.len());
    assert(x@.subrange(0, x@.len() as int) =~= x@);
    assert(y@.subrange(0, y@.len() as int) =~= y@);
    r
}

/// Appends the characters of `s` to `v`.
pub fn append_str(v: &mut Vec<char>, s: &str)
    ensures
        final(v)@ == old(v)@ + s@,
{
    let mut c = chars_of(s);
    v.append(&mut c);
}

/// Appends the characters of `s` to `v`.
pub fn append_chars(v: &mut Vec<char>, s: &Vec<char>)
    ensures
        final(v)@ == old(v)@ + s@,
{
    let mut k: usize = 0;
    let ghost v0 = v@;
    while k < s.len()
        invariant
            k <= s@.len(),
            v@ == v0 + s@.take(k as int),
        decreases s@.len() - k,
    {
        v.push(s[k]);
        assert(s@.take(k + 1) =~= s@.take(k as int).push(s@[k as int]));
        k += 1;
    }
    assert(s@.take(k as int) =~= s@);
}

/// Whether `c` is Unicode whitespace (`char::is_whitespace`).
pub fn is_whitespace(c: char) -> (r: bool)
    ensures
        r == is_ws(c),
{
    ('\u{9}' <= c && c <= '\u{d}') || c == ' ' || c == '\u{85}' || c == '\u{a0}' || c
        == '\u{1680}' || ('\u{2000}' <= c && c <= '\u{200a}') || c == '\u{2028}' || c
        == '\u{2029}' || c == '\u{202f}' || c == '\u{205f}' || c == '\u{3000}'
}

proof fn lemma_trim_start_skip(s: Seq<char>, i: int)
    requires
        0 <= i <= s.len(),
        forall|j: int| 0 <= j < i ==> is_ws(#[trigger] s[j]),
    ensures
        trim_start(s) == trim_start(s.skip(i)),
    decreases i,
{
    if i > 0 {
        assert(s.skip(1) =~= s.drop_first());
        lemma_trim_start_skip(s.drop_first(), i - 1);
        assert(s.drop_first().skip(i - 1) =~= s.skip(i));
    } else {
        assert(s.skip(0) =~= s);
    }
}

proof fn lemma_trim_end_take(s: Seq<char>, i: int)
    requires
        0 <= i <= s.len(),
        forall|j: int| i <= j < s.len() ==> is_ws(#[trigger] s[j]),
    ensures
        trim_end(s) == trim_end(s.take(i)),
    decreases s.len() - i,
{
    if i < s.len() {
        assert(s.take(s.len() - 1) =~= s.drop_last());
        lemma_trim_end_take(s.drop_last(), i);
        assert(s.drop_last().take(i) =~= s.take(i));
    } else {
        assert(s.take(s.len() as int) =~= s);
    }
}

/// Trimming text padded with whitespace on both sides gives back the text,
/// when the text neither starts nor ends with whitespace.
pub proof fn lemma_trim_padded(before: Seq<char>, core: Seq<char>, after: Seq<char>)
    requires
        forall|i: int| 0 <= i < before.len() ==> is_ws(#[trigger] before[i]),
        forall|i: int| 0 <= i < after.len() ==> is_ws(#[trigger] after[i]),
        core.len() > 0 ==> !is_ws(core[0]) && !is_ws(core.last()),
    ensures
        trim(before + core + after) == core,
{
    let s = before + core + after;
    assert forall|j: int| 0 <= j < before.len() implies is_ws(#[trigger] s[j]) by {
        assert(s[j] == before[j]);
    }
    lemma_trim_start_skip(s, before.len() as int);
    let t = s.skip(before.len() as int);
    assert(t =~= core + after);
    if core.len() > 0 {
        assert(t[0] == core[0]);
        assert(trim_start(t) == t);
    } else {
        assert(t =~= after);
        assert forall|j: int| 0 <= j < t.len() implies is_ws(#[trigger] t[j]) by {
            assert(t[j] == after[j]);
        }
        lemma_trim_start_skip(t, t.len() as int);
        assert(t.skip(t.len() as int) =~= seq![]);
        assert(trim_start(t) == Seq::<char>::empty());
        assert(trim_end(Seq::<char>::empty()) == Seq::<char>::empty());
        assert(core =~= Seq::<char>::empty());
        return;
    }
    assert forall|j: int| core.len() <= j < t.len() implies is_ws(#[trigger] t[j]) by {
        assert(t[j] == after[j - core.len()]);
    }
    lemma_trim_end_take(t, core.len() as int);
    assert(t.take(core.len() as int) =~= core);
    let c = core;
    assert(c.last() == core.last());
    assert(trim_end(c) == c);
}

/// Start of `s[start..end]` with leading whitespace removed.
pub fn trim_start_bound(s: &Vec<char>, start: usize, end: usize) -> (r: usize)
    requires
        start <= end <= s.len(),
    ensures
        start <= r <= end,
        s@.subrange(r as int, end as int) == trim_start(s@.subrange(start as int, end as int)),
{
    let ghost whole = s@.subrange(start as int, end as int);
    let mut a = start;
    while a < end && is_whitespace(s[a])
        invariant
            start <= a <= end <= s.len(),
            forall|j: int| start <= j < a ==> is_ws(#[trigger] s@[j]),
        decreases end - a,
    {
        a += 1;
    }
    proof {
        lemma_trim_start_skip(whole, a - start);
        assert(whole.skip(a - start) =~= s@.subrange(a as int, end as int));
        let t = s@.subrange(a as int, end as int);
        if t.len() > 0 {
            assert(t[0] == s@[a as int]);
        }
        assert(trim_start(t) == t);
    }
    a
}

/// End of `s[..end]` with trailing whitespace removed.
pub fn trim_end_bound(s: &Vec<char>, end: usize) -> (r: usize)
    requires
        end <= s.len(),
    ensures
        r <= end,
        s@.take(r as int) == trim_end(s@.take(end as int)),
{
    let mut b = end;
    while b > 0 && is_whitespace(s[b - 1])
        invariant
            b <= end <= s.len(),
            forall|j: int| b <= j < end ==> is_ws(#[trigger] s@[j]),
        decreases b,
    {
        b -= 1;
    }
    proof {
        let t = s@.take(end as int);
        lemma_trim_end_take(t, b as int);
        assert(t.take(b as int) =~= s@.take(b as int));
        let u = s@.take(b as int);
        if u.len() > 0 {
            assert(u.last() == s@[b - 1]);
        }
        assert(trim_end(u) == u);
    }
    b
}

/// Bounds of `s[start..end]` with surrounding whitespace removed.
pub fn trim_bounds(s: &Vec<char>, start: usize, end: usize) -> (r: (usize, usize))
    requires
        start <= end <= s.len(),
    ensures
        start <= r.0 <= r.1 <= end,
        s@.subrange(r.0 as int, r.1 as int) == trim(s@.subrange(start as int, end as int)),
{
    let ghost whole = s@.subrange(start as int, end as int);
    let mut a = start;
    while a < end && is_whitespace(s[a])
        invariant
            start <= a <= end <= s.len(),
            forall|j: int| start <= j < a ==> is_ws(#[trigger] s@[j]),
        decreases end - a,
    {
        a += 1;
    }
    proof {
        lemma_trim_start_skip(whole, a - start);
        assert(whole.skip(a - start) =~= s@.subrange(a as int, end as int));
        let t = s@.subrange(a as int, end as int);
        if t.len() > 0 {
            assert(t[0] == s@[a as int]);
        }
        assert(trim_start(t) == t);
    }
    let mut b = end;
    while b > a && is_whitespace(s[b - 1])
        invariant
            start <= a <= b <= end <= s.len(),
            forall|j: int| b <= j < end ==> is_ws(#[trigger] s@[j]),
        decreases b - a,
    {
        b -= 1;
    }
    proof {
        let t = s@.subrange(a as int, end as int);
        lemma_trim_end_take(t, b - a);
        assert(t.take(b - a) =~= s@.subrange(a as int, b as int));
        let u = s@.subrange(a as int, b as int);
        if u.len() > 0 {
            assert(u.last() == s@[b - 1]);
        }
        assert(trim_end(u) == u);
    }
    (a, b)
}


/// Index of the first `c` in `s`, or `s.len()` when there is none.
pub open spec fn find_char(s: Seq<char>, c: char) -> nat
    decreases s.len(),
{
    if s.len() == 0 {
        0
    } else if s[0] == c {
        0
    } else {
        1 + find_char(s.drop_first(), c)
    }
}

/// [`find_char`] is the index of the first `c`, or the length when there
/// is none.
pub proof fn lemma_find_char(s: Seq<char>, c: char)
    ensures
        find_char(s, c) <= s.len(),
        find_char(s, c) < s.len() ==> s[find_char(s, c) as int] == c,
        forall|j: int| 0 <= j < find_char(s, c) ==> s[j] != c,
    decreases s.len(),
{
    if s.len() > 0 && s[0] != c {
        lemma_find_char(s.drop_first(), c);
        assert forall|j: int| 0 <= j < find_char(s, c) implies s[j] != c by {
            if j > 0 {
                assert(s[j] == s.drop_first()[j - 1]);
            }
        }
    }
}

/// An index before which no character is `c`, and which holds `c` or is
/// the length, is [`find_char`].
pub proof fn lemma_find_char_is(s: Seq<char>, c: char, k: int)
    requires
        0 <= k <= s.len(),
        forall|j: int| 0 <= j < k ==> s[j] != c,
        k < s.len() ==> s[k] == c,
    ensures
        find_char(s, c) == k,
    decreases k,
{
    if k > 0 {
        assert forall|j: int| 0 <= j < k - 1 implies s.drop_first()[j] != c by {
            assert(s.drop_first()[j] == s[j + 1]);
        }
        lemma_find_char_is(s.drop_first(), c, k - 1);
    }
}

/// `l` without one trailing carriage return.
pub open spec fn strip_cr(l: Seq<char>) -> Seq<char> {
    if l.len() > 0 && l.last() == '\r' {
        l.drop_last()
    } else {
        l
    }
}

/// The lines of `s` as `str::lines` yields them: split after each `'\n'`,
/// the terminator (and a `'\r'` just before it) removed, no trailing empty
/// line for a final terminator.
pub open spec fn lines(s: Seq<char>) -> Seq<Seq<char>>
    decreases s.len(),
{
    if s.len() == 0 {
        seq![]
    } else {
        let i = find_char(s, '\n');
        if i < s.len() {
            seq![strip_cr(s.take(i as int))] + lines(s.skip(i as int + 1))
        } else {
            seq![s]
        }
    }
}

/// Index ranges of the lines of `s` (see [`lines`]).
#[verifier::loop_isolation(false)]
pub fn line_bounds(s: &Vec<char>) -> (r: Vec<(usize, usize)>)
    ensures
        r@.len() == lines(s@).len(),
        forall|i: int| #![trigger r@[i]] 0 <= i < r@.len() ==> r@[i].0 <= r@[i].1 && r@[i].1 <= s@.len(),
        forall|i: int|
            0 <= i < r@.len() ==> s@.subrange(r@[i].0 as int, r@[i].1 as int) == #[trigger] lines(
                s@,
            )[i],
{
    let mut out: Vec<(usize, usize)> = Vec::new();
    let ghost mut acc: Seq<Seq<char>> = seq![];
    let mut pos: usize = 0;
    let n = s.len();
    assert(s@.skip(0) =~= s@);
    while pos < n
        invariant
            n == s@.len(),
            pos <= n,
            out@.len() == acc.len(),
            lines(s@) == acc + lines(s@.skip(pos as int)),
            forall|i: int| #![trigger out@[i]] 0 <= i < out@.len() ==> out@[i].0 <= out@[i].1 && out@[i].1 <= s@.len(),
            forall|i: int|
                0 <= i < out@.len() ==> s@.subrange(out@[i].0 as int, out@[i].1 as int) == #[trigger] acc[i],
        decreases n - pos,
    {
        let mut j = pos;
        while j < n && s[j] != '\n'
            invariant
                pos <= j <= n,
                n == s@.len(),
                forall|m: int| pos <= m < j ==> s@[m] != '\n',
            decreases n - j,
        {
            j += 1;
        }
        let ghost t = s@.skip(pos as int);
        proof {
            assert forall|m: int| 0 <= m < j - pos implies t[m] != '\n' by {
                assert(t[m] == s@[pos + m]);
            }
            if j < n {
                assert(t[j - pos] == s@[j as int]);
            }
            lemma_find_char_is(t, '\n', j - pos);
        }
        if j < n {
            let end = if j > pos && s[j - 1] == '\r' {
                j - 1
            } else {
                j
            };
            proof {
                let l = t.take(j - pos);
                assert(l =~= s@.subrange(pos as int, j as int));
                assert(strip_cr(l) =~= s@.subrange(pos as int, end as int));
                assert(t.skip(j - pos + 1) =~= s@.skip(j + 1));
                acc = acc.push(strip_cr(l));
            }
            let ghost old_out = out@;
            let ghost old_acc = acc.drop_last();
            out.push((pos, end));
            proof {
                assert forall|i: int| 0 <= i < out@.len() implies s@.subrange(out@[i].0 as int, out@[i].1 as int) == #[trigger] acc[i] by {
                    if i < old_out.len() {
                        assert(out@[i] == old_out[i]);
                        assert(acc[i] == old_acc[i]);
                    }
                }
            }
            pos = j + 1;
        } else {
            proof {
                assert(t =~= s@.subrange(pos as int, n as int));
                acc = acc.push(t);
                assert(s@.skip(n as int) =~= seq![]);
            }
            let ghost old_out = out@;
            let ghost old_acc = acc.drop_last();
            out.push((pos, n));
            proof {
                assert forall|i: int| 0 <= i < out@.len() implies s@.subrange(out@[i].0 as int, out@[i].1 as int) == #[trigger] acc[i] by {
                    if i < old_out.len() {
                        assert(out@[i] == old_out[i]);
                        assert(acc[i] == old_acc[i]);
                    }
                }
            }
            pos = n;
        }
    }
    proof {
        assert(s@.skip(n as int) =~= seq![]);
        assert(acc + seq![] =~= acc);
        assert(lines(s@) =~= acc);
        assert forall|i: int| 0 <= i < out@.len() implies s@.subrange(out@[i].0 as int, out@[i].1 as int) == #[trigger] lines(s@)[i] by {
            assert(acc[i] == lines(s@)[i]);
        }
    }
    out
}


/// The ASCII digit for `d` (`0 <= d < 10`).
pub open spec fn digit_char(d: int) -> char {
    (d + 48) as char
}

/// Decimal digits of `n`, most significant first, no leading zeros.
pub open spec fn dec(n: nat) -> Seq<char>
    decreases n,
{
    if n < 10 {
        seq![digit_char(n as int)]
    } else {
        dec(n / 10).push(digit_char((n % 10) as int))
    }
}

/// Decimal text of `i`, as `Display` writes an integer.
pub open spec fn int_text(i: int) -> Seq<char> {
    if i < 0 {
        seq!['-'] + dec((-i) as nat)
    } else {
        dec(i as nat)
    }
}

fn digit_of(d: u64) -> (c: char)
    requires
        d < 10,
    ensures
        c == digit_char(d as int),
{
    let b: u8 = d as u8 + 48;
    b as char
}

/// Decimal digits of `m`, as characters.
pub fn dec_chars(m: u64) -> (v: Vec<char>)
    ensures
        v@ == dec(m as nat),
{
    let mut v: Vec<char> = Vec::new();
    let mut q: u64 = m;
    loop
        invariant_except_break
            dec(m as nat) == dec(q as nat) + v@,
        ensures
            dec(m as nat) == v@,
        decreases q,
    {
        let d = q % 10;
        let c = digit_of(d);
        let ghost old_v = v@;
        v.insert(0, c);
        assert(v@ =~= seq![c] + old_v);
        if q < 10 {
            assert(dec(q as nat) =~= seq![c]);
            break;
        }
        let ghost q0 = q;
        q = q / 10;
        assert(dec(q0 as nat) == dec(q as nat).push(c));
        assert(dec(q as nat).push(c) + old_v =~= dec(q as nat) + v@);
    }
    v
}

/// Decimal text of `i` (the `Display` form of an `i64`).
pub fn int_to_string(i: i64) -> (r: String)
    ensures
        r@ == int_text(i as int),
{
    if i < 0 {
        let m: u64 = (0i128 - i as i128) as u64;
        let d = dec_chars(m);
        let mut v: Vec<char> = Vec::new();
        v.push('-');
        let mut k: usize = 0;
        while k < d.len()
            invariant
                k <= d@.len(),
                v@ == seq!['-'] + d@.take(k as int),
            decreases d@.len() - k,
        {
            v.push(d[k]);
            assert(d@.take(k + 1) =~= d@.take(k as int).push(d@[k as int]));
            k += 1;
        }
        assert(d@.take(d@.len() as int) =~= d@);
        string_from_chars(&v)
    } else {
        let d = dec_chars(i as u64);
        string_from_chars(&d)
    }
}

/// Decimal text of a count (the `Display` form of a `usize`).
pub fn usize_to_string(n: usize) -> (r: String)
    ensures
        r@ == dec(n as nat),
{
    let d = dec_chars(n as u64);
    string_from_chars(&d)
}

/// An ASCII digit `0`..=`9`.
pub open spec fn is_digit(c: char) -> bool {
    '0' <= c && c <= '9'
}

/// All characters of `s` are ASCII digits.
pub open spec fn all_digits(s: Seq<char>) -> bool {
    forall|i: int| 0 <= i < s.len() ==> is_digit(#[trigger] s[i])
}

/// The number written by the digit string `s` (base 10).
pub open spec fn digits_value(s: Seq<char>) -> nat
    decreases s.len(),
{
    if s.len() == 0 {
        0
    } else {
        (digits_value(s.drop_last()) * 10 + (s.last() as int - 48)) as nat
    }
}

/// The integer written by `s` in the syntax `str::parse` accepts for a signed
/// type: an optional `+`/`-` and at least one ASCII digit, nothing else. No
/// range check.
pub open spec fn signed_syntax(s: Seq<char>) -> Option<int> {
    if s.len() > 0 && (s[0] == '-' || s[0] == '+') {
        let b = s.drop_first();
        if b.len() > 0 && all_digits(b) {
            Some(
                if s[0] == '-' {
                    -(digits_value(b) as int)
                } else {
                    digits_value(b) as int
                },
            )
        } else {
            None
        }
    } else if s.len() > 0 && all_digits(s) {
        Some(digits_value(s) as int)
    } else {
        None
    }
}

/// What `s.parse::<i64>()` returns, as an option.
pub open spec fn parse_i64_spec(s: Seq<char>) -> Option<i64> {
    match signed_syntax(s) {
        Some(v) => if i64::MIN <= v <= i64::MAX {
            Some(v as i64)
        } else {
            None
        },
        None => None,
    }
}

/// Printing a number and reading it back gives the number: the decimal
/// text of `n` is a non-empty run of ASCII digits whose value is `n`, and it
/// parses as `n` when `n` fits an `i64`.
pub proof fn lemma_dec_parses(n: nat)
    ensures
        dec(n).len() >= 1,
        all_digits(dec(n)),
        digits_value(dec(n)) == n,
        n <= i64::MAX ==> parse_i64_spec(dec(n)) == Some(n as i64),
    decreases n,
{
    if n >= 10 {
        lemma_dec_parses(n / 10);
        let d = dec(n / 10);
        let e = dec(n);
        assert(e.drop_last() =~= d);
        assert forall|i: int| 0 <= i < e.len() implies is_digit(#[trigger] e[i]) by {
            if i < d.len() {
                assert(e[i] == d[i]);
            }
        }
        assert(e.last() as int == (n % 10) + 48);
        assert((n / 10) * 10 + n % 10 == n) by (nonlinear_arith);
        assert(digits_value(e) == digits_value(d) * 10 + (e.last() as int - 48));
        assert(digits_value(d) == n / 10);
        assert(digits_value(e) == n);
    } else {
        let e = dec(n);
        assert(e.drop_last() =~= Seq::<char>::empty());
        assert(digits_value(e.drop_last()) == 0);
        assert(e.last() as int == n + 48);
        assert(digits_value(e) == n);
    }
    if dec(n)[0] == '-' || dec(n)[0] == '+' {
        assert(is_digit(dec(n)[0]));
    }
}

/// Printing an `i64` and reading it back gives the number.
pub proof fn lemma_int_text_parses(i: i64)
    ensures
        parse_i64_spec(int_text(i as int)) == Some(i),
{
    if i < 0 {
        let m = (-i) as nat;
        lemma_dec_parses(m);
        let t = int_text(i as int);
        assert(t.drop_first() =~= dec(m));
    } else {
        lemma_dec_parses(i as nat);
    }
}

/// What `s.parse::<u64>()` returns, as an option: an optional `+`, then
/// at least one ASCII digit, in range.
pub open spec fn parse_u64_spec(s: Seq<char>) -> Option<u64> {
    if s.len() > 0 && s[0] == '-' {
        None
    } else {
        match signed_syntax(s) {
            Some(v) => if 0 <= v <= u64::MAX {
                Some(v as u64)
            } else {
                None
            },
            None => None,
        }
    }
}

proof fn lemma_digits_value_grows(p: Seq<char>, c: char)
    requires
        is_digit(c),
    ensures
        digits_value(p.push(c)) == digits_value(p) * 10 + (c as int - 48),
        digits_value(p.push(c)) >= digits_value(p),
{
    assert(p.push(c).drop_last() =~= p);
}

/// Value of the digit run `s[a..b]`, or `None` when it is empty, holds a
/// non-digit, or exceeds `limit`.
fn digits_in(s: &Vec<char>, a: usize, b: usize, limit: u64) -> (r: Option<u64>)
    requires
        a <= b <= s.len(),
    ensures
        match r {
            Some(v) => a < b && all_digits(s@.subrange(a as int, b as int)) && v == digits_value(
                s@.subrange(a as int, b as int),
            ) && v <= limit,
            None => !(a < b && all_digits(s@.subrange(a as int, b as int)) && digits_value(
                s@.subrange(a as int, b as int),
            ) <= limit),
        },
{
    if a == b {
        return None;
    }
    let mut acc: u128 = 0;
    let mut big = false;
    let mut k = a;
    assert(s@.subrange(a as int, a as int) =~= seq![]);
    while k < b
        invariant
            a <= k <= b <= s.len(),
            all_digits(s@.subrange(a as int, k as int)),
            !big ==> acc == digits_value(s@.subrange(a as int, k as int)) && acc <= u64::MAX,
            big ==> digits_value(s@.subrange(a as int, k as int)) > u64::MAX,
        decreases b - k,
    {
        let c = s[k];
        if !('0' <= c && c <= '9') {
            assert(s@.subrange(a as int, b as int)[k - a] == c);
            return None;
        }
        let ghost p = s@.subrange(a as int, k as int);
        proof {
            assert(s@.subrange(a as int, k + 1) =~= p.push(c));
            lemma_digits_value_grows(p, c);
        }
        if !big {
            let d: u128 = (c as u32 - 48) as u128;
            acc = acc * 10 + d;
            if acc > u64::MAX as u128 {
                big = true;
            }
        }
        k += 1;
    }
    if big || acc > limit as u128 {
        None
    } else {
        Some(acc as u64)
    }
}

/// `s[a..b].parse::<i64>()`, as an option.
pub fn parse_i64(s: &Vec<char>, a: usize, b: usize) -> (r: Option<i64>)
    requires
        a <= b <= s.len(),
    ensures
        r == parse_i64_spec(s@.subrange(a as int, b as int)),
{
    let ghost t = s@.subrange(a as int, b as int);
    if a < b && (s[a] == '-' || s[a] == '+') {
        let neg = s[a] == '-';
        assert(t.drop_first() =~= s@.subrange(a + 1, b as int));
        let lim: u64 = if neg { 9223372036854775808 } else { 9223372036854775807 };
        match digits_in(s, a + 1, b, lim) {
            Some(v) => {
                if neg {
                    Some((0i128 - v as i128) as i64)
                } else {
                    Some(v as i64)
                }
            },
            None => None,
        }
    } else {
        match digits_in(s, a, b, 9223372036854775807) {
            Some(v) => Some(v as i64),
            None => None,
        }
    }
}

/// `s[a..b].parse::<u64>()`, as an option.
pub fn parse_u64(s: &Vec<char>, a: usize, b: usize) -> (r: Option<u64>)
    requires
        a <= b <= s.len(),
    ensures
        r == parse_u64_spec(s@.subrange(a as int, b as int)),
{
    let ghost t = s@.subrange(a as int, b as int);
    if a < b && s[a] == '-' {
        None
    } else if a < b && s[a] == '+' {
        assert(t.drop_first() =~= s@.subrange(a + 1, b as int));
        digits_in(s, a + 1, b, 18446744073709551615)
    } else {
        digits_in(s, a, b, 18446744073709551615)
    }
}


/// ASCII lowercase of one character (`char::to_ascii_lowercase`).
pub open spec fn ascii_lower(c: char) -> char {
    if 'A' <= c && c <= 'Z' {
        ((c as u32) + 32) as char
    } else {
        c
    }
}

/// ASCII uppercase of one character (`char::to_ascii_uppercase`).
pub open spec fn ascii_upper(c: char) -> char {
    if 'a' <= c && c <= 'z' {
        ((c as u32) - 32) as char
    } else {
        c
    }
}

/// ASCII lowercase of a text (`str::to_ascii_lowercase`).
pub open spec fn ascii_lower_seq(s: Seq<char>) -> Seq<char> {
    s.map_values(|c: char| ascii_lower(c))
}

/// ASCII uppercase of a text (`str::to_ascii_uppercase`).
pub open spec fn ascii_upper_seq(s: Seq<char>) -> Seq<char> {
    s.map_values(|c: char| ascii_upper(c))
}

/// `str::eq_ignore_ascii_case`.
pub open spec fn eq_ignore_ascii_case(a: Seq<char>, b: Seq<char>) -> bool {
    ascii_lower_seq(a) == ascii_lower_seq(b)
}

/// `char::to_ascii_lowercase`.
pub fn to_ascii_lower(c: char) -> (r: char)
    ensures
        r == ascii_lower(c),
{
    if 'A' <= c && c <= 'Z' {
        let b: u8 = c as u8;
        (b + 32) as char
    } else {
        c
    }
}

/// `char::to_ascii_uppercase`.
pub fn to_ascii_upper(c: char) -> (r: char)
    ensures
        r == ascii_upper(c),
{
    if 'a' <= c && c <= 'z' {
        let b: u8 = c as u8;
        (b - 32) as char
    } else {
        c
    }
}

/// ASCII-lowercased copy of `s[a..b]`.
pub fn ascii_lower_range(s: &Vec<char>, a: usize, b: usize) -> (r: Vec<char>)
    requires
        a <= b <= s.len(),
    ensures
        r@ == ascii_lower_seq(s@.subrange(a as int, b as int)),
{
    let mut r: Vec<char> = Vec::new();
    let mut k = a;
    while k < b
        invariant
            a <= k <= b <= s.len(),
            r@ == ascii_lower_seq(s@.subrange(a as int, k as int)),
        decreases b - k,
    {
        r.push(to_ascii_lower(s[k]));
        assert(ascii_lower_seq(s@.subrange(a as int, k + 1)) =~= ascii_lower_seq(
            s@.subrange(a as int, k as int),
        ).push(ascii_lower(s@[k as int])));
        k += 1;
    }
    r
}

/// ASCII-uppercased copy of `s[a..b]`.
pub fn ascii_upper_range(s: &Vec<char>, a: usize, b: usize) -> (r: Vec<char>)
    requires
        a <= b <= s.len(),
    ensures
        r@ == ascii_upper_seq(s@.subrange(a as int, b as int)),
{
    let mut r: Vec<char> = Vec::new();
    let mut k = a;
    while k < b
        invariant
            a <= k <= b <= s.len(),
            r@ == ascii_upper_seq(s@.subrange(a as int, k as int)),
        decreases b - k,
    {
        r.push(to_ascii_upper(s[k]));
        assert(ascii_upper_seq(s@.subrange(a as int, k + 1)) =~= ascii_upper_seq(
            s@.subrange(a as int, k as int),
        ).push(ascii_upper(s@[k as int])));
        k += 1;
    }
    r
}

/// Whether `s[a..b]` and `t[c..d]` are equal ignoring ASCII case.
pub fn range_eq_ignore_ascii_case(s: &Vec<char>, a: usize, b: usize, t: &Vec<char>, c: usize, d: usize) -> (r: bool)
    requires
        a <= b <= s.len(),
        c <= d <= t.len(),
    ensures
        r == eq_ignore_ascii_case(s@.subrange(a as int, b as int), t@.subrange(c as int, d as int)),
{
    let x = ascii_lower_range(s, a, b);
    let y = ascii_lower_range(t, c, d);
    let r = range_eq(&x, 0, x.len(), &y, 0, y.len());
    assert(x@.subrange(0, x@.len() as int) =~= x@);
    assert(y@.subrange(0, y@.len() as int) =~= y@);
    r
}

/// `p` is a prefix of `s`.
pub open spec fn starts_with(s: Seq<char>, p: Seq<char>) -> bool {
    p.len() <= s.len() && s.take(p.len() as int) == p
}

/// `p` occurs in `s` (`str::contains` with a string pattern).
pub open spec fn contains_seq(s: Seq<char>, p: Seq<char>) -> bool {
    exists|i: int| 0 <= i && i + p.len() <= s.len() && #[trigger] s.subrange(i, i + p.len()) == p
}

/// Whether `p` occurs in `s`.
pub fn contains_chars(s: &Vec<char>, p: &Vec<char>) -> (r: bool)
    ensures
        r == contains_seq(s@, p@),
{
    if p.len() > s.len() {
        return false;
    }
    if p.len() == 0 {
        assert(s@.subrange(0int, 0int + p@.len()) =~= p@);
        return true;
    }
    let mut i: usize = 0;
    let last = s.len() - p.len();
    while i <= last
        invariant
            p@.len() <= s@.len(),
            last == s@.len() - p@.len(),
            p@.len() > 0,
            i <= last + 1,
            forall|j: int| 0 <= j < i ==> #[trigger] s@.subrange(j, j + p@.len()) != p@,
        decreases last + 1 - i,
    {
        let plen = p.len();
        let slen = s.len();
        assert(i + plen <= slen);
        if range_eq(s, i, i + plen, p, 0, plen) {
            assert(p@.subrange(0, p@.len() as int) =~= p@);
            return true;
        }
        assert(p@.subrange(0, p@.len() as int) =~= p@);
        i += 1;
    }
    false
}

/// `s` with every non-overlapping occurrence of `pat`, scanned left to right,
/// replaced by `rep` (`str::replace`).
pub open spec fn replace_all(s: Seq<char>, pat: Seq<char>, rep: Seq<char>) -> Seq<char>
    decreases s.len(),
{
    if s.len() == 0 || pat.len() == 0 {
        s
    } else if starts_with(s, pat) {
        rep + replace_all(s.skip(pat.len() as int), pat, rep)
    } else {
        seq![s[0]] + replace_all(s.drop_first(), pat, rep)
    }
}

/// `s` with every occurrence of `pat` replaced by `rep`.
pub fn replace_chars(s: &Vec<char>, pat: &Vec<char>, rep: &Vec<char>) -> (r: Vec<char>)
    requires
        pat@.len() > 0,
    ensures
        r@ == replace_all(s@, pat@, rep@),
{
    let mut out: Vec<char> = Vec::new();
    let mut i: usize = 0;
    let n = s.len();
    assert(s@.skip(0) =~= s@);
    while i < n
        invariant
            n == s@.len(),
            i <= n,
            pat@.len() > 0,
            replace_all(s@, pat@, rep@) == out@ + replace_all(s@.skip(i as int), pat@, rep@),
        decreases n - i,
    {
        let ghost t = s@.skip(i as int);
        if pat.len() <= n - i && range_eq(s, i, i + pat.len(), pat, 0, pat.len()) {
            proof {
                p_full(pat@);
                assert(t.take(pat@.len() as int) =~= s@.subrange(i as int, i + pat@.len()));
                assert(t.skip(pat@.len() as int) =~= s@.skip(i + pat@.len()));
            }
            append_chars(&mut out, rep);
            i += pat.len();
        } else {
            proof {
                assert(pat@.subrange(0, pat@.len() as int) =~= pat@);
                if i + pat@.len() <= n {
                    assert(t.take(pat@.len() as int) =~= s@.subrange(i as int, i + pat@.len()));
                }
                assert(t.drop_first() =~= s@.skip(i + 1));
                assert(t[0] == s@[i as int]);
            }
            out.push(s[i]);
            assert(out@ + replace_all(s@.skip(i + 1), pat@, rep@) =~= out@.drop_last() + (seq![s@[i as int]] + replace_all(s@.skip(i + 1), pat@, rep@)));
            i += 1;
        }
    }
    assert(s@.skip(n as int) =~= seq![]);
    assert(out@ + seq![] =~= out@);
    out
}

proof fn p_full(p: Seq<char>)
    ensures
        p.subrange(0, p.len() as int) == p,
{
    assert(p.subrange(0, p.len() as int) =~= p);
}


/// The pieces of `s` between occurrences of `c` (`str::split` with a char):
/// always at least one piece.
pub open spec fn split_on(s: Seq<char>, c: char) -> Seq<Seq<char>>
    decreases s.len(),
{
    let i = find_char(s, c);
    if i < s.len() {
        seq![s.take(i as int)] + split_on(s.skip(i as int + 1), c)
    } else {
        seq![s]
    }
}

/// Index ranges of the pieces of `s[a..b]` split on `c` (see [`split_on`]).
#[verifier::loop_isolation(false)]
pub fn split_bounds(s: &Vec<char>, a: usize, b: usize, c: char) -> (r: Vec<(usize, usize)>)
    requires
        a <= b <= s.len(),
    ensures
        r@.len() == split_on(s@.subrange(a as int, b as int), c).len(),
        r@.len() >= 1,
        forall|i: int| #![trigger r@[i]] 0 <= i < r@.len() ==> a <= r@[i].0 <= r@[i].1 <= b,
        forall|i: int|
            0 <= i < r@.len() ==> s@.subrange(r@[i].0 as int, r@[i].1 as int) == #[trigger] split_on(
                s@.subrange(a as int, b as int),
                c,
            )[i],
{
    let ghost whole = s@.subrange(a as int, b as int);
    let mut out: Vec<(usize, usize)> = Vec::new();
    let ghost mut acc: Seq<Seq<char>> = seq![];
    let mut pos: usize = a;
    assert(whole.skip(0) =~= whole);
    loop
        invariant
            a <= pos <= b <= s.len(),
            whole == s@.subrange(a as int, b as int),
            out@.len() == acc.len(),
            split_on(whole, c) == acc + split_on(s@.subrange(pos as int, b as int), c),
            forall|i: int| #![trigger out@[i]] 0 <= i < out@.len() ==> a <= out@[i].0 <= out@[i].1 <= b,
            forall|i: int|
                0 <= i < out@.len() ==> s@.subrange(out@[i].0 as int, out@[i].1 as int) == #[trigger] acc[i],
        decreases b - pos,
    {
        let mut j = pos;
        while j < b && s[j] != c
            invariant
                pos <= j <= b,
                forall|m: int| pos <= m < j ==> s@[m] != c,
            decreases b - j,
        {
            j += 1;
        }
        let ghost t = s@.subrange(pos as int, b as int);
        proof {
            assert forall|m: int| 0 <= m < j - pos implies t[m] != c by {
                assert(t[m] == s@[pos + m]);
            }
            if j < b {
                assert(t[j - pos] == s@[j as int]);
            }
            lemma_find_char_is(t, c, j - pos);
            assert(t.take(j - pos) =~= s@.subrange(pos as int, j as int));
        }
        let ghost old_out = out@;
        let ghost old_acc = acc;
        out.push((pos, j));
        proof {
            acc = acc.push(s@.subrange(pos as int, j as int));
            assert forall|i: int| 0 <= i < out@.len() implies s@.subrange(out@[i].0 as int, out@[i].1 as int) == #[trigger] acc[i] by {
                if i < old_out.len() {
                    assert(out@[i] == old_out[i]);
                    assert(acc[i] == old_acc[i]);
                }
            }
        }
        if j < b {
            proof {
                assert(t.skip(j - pos + 1) =~= s@.subrange(j + 1, b as int));
            }
            pos = j + 1;
        } else {
            proof {
                assert(t =~= s@.subrange(pos as int, j as int));
                assert(split_on(whole, c) =~= acc);
            }
            break;
        }
    }
    proof {
        assert forall|i: int| 0 <= i < out@.len() implies s@.subrange(out@[i].0 as int, out@[i].1 as int) == #[trigger] split_on(whole, c)[i] by {
            assert(acc[i] == split_on(whole, c)[i]);
        }
    }
    out
}

/// Start of the last occurrence of `p` in `s`, if any (`str::rfind`).
pub open spec fn rfind(s: Seq<char>, p: Seq<char>) -> Option<int>
    decreases s.len(),
{
    if s.len() < p.len() {
        None
    } else if s.skip(s.len() - p.len()) == p {
        Some(s.len() - p.len())
    } else if s.len() == 0 {
        None
    } else {
        rfind(s.drop_last(), p)
    }
}

/// [`rfind`] is where the last occurrence starts, or none when `p` does
/// not occur.
pub proof fn lemma_rfind(s: Seq<char>, p: Seq<char>)
    ensures
        rfind(s, p) matches Some(i) ==> 0 <= i && i + p.len() <= s.len() && s.subrange(i, i + p.len()) == p,
        rfind(s, p) matches Some(i) ==> forall|j: int| i < j && j + p.len() <= s.len() ==> #[trigger] s.subrange(j, j + p.len()) != p,
        rfind(s, p) is None ==> forall|j: int| 0 <= j && j + p.len() <= s.len() ==> #[trigger] s.subrange(j, j + p.len()) != p,
    decreases s.len(),
{
    if s.len() < p.len() {
    } else if s.skip(s.len() - p.len()) == p {
        assert(s.subrange(s.len() - p.len(), s.len() as int) =~= s.skip(s.len() - p.len()));
    } else if s.len() == 0 {
        assert(s.skip(0) =~= p);
    } else {
        let d = s.drop_last();
        lemma_rfind(d, p);
        assert(s.subrange(s.len() - p.len(), s.len() as int) =~= s.skip(s.len() - p.len()));
        assert forall|j: int| 0 <= j && j + p.len() <= d.len() implies #[trigger] s.subrange(j, j + p.len()) == d.subrange(j, j + p.len()) by {
            assert(s.subrange(j, j + p.len()) =~= d.subrange(j, j + p.len()));
        }
    }
}

/// Start of the last occurrence of `p` in `s[a..b]`, as an index into `s`.
pub fn rfind_in(s: &Vec<char>, a: usize, b: usize, p: &Vec<char>) -> (r: Option<usize>)
    requires
        a <= b <= s.len(),
    ensures
        match r {
            Some(i) => rfind(s@.subrange(a as int, b as int), p@) == Some(i - a) && a <= i
                && i + p@.len() <= b,
            None => rfind(s@.subrange(a as int, b as int), p@) is None,
        },
{
    let ghost t = s@.subrange(a as int, b as int);
    proof {
        lemma_rfind(t, p@);
    }
    let plen = p.len();
    if plen > b - a {
        return None;
    }
    let mut i: usize = b - plen;
    loop
        invariant
            a <= i <= b - plen,
            b <= s.len(),
            plen == p@.len(),
            b - a >= plen,
            t == s@.subrange(a as int, b as int),
            forall|j: int| i - a < j && j + plen <= t.len() ==> #[trigger] t.subrange(j, j + plen) != p@,
        decreases i,
    {
        if range_eq(s, i, i + plen, p, 0, plen) {
            proof {
                assert(p@.subrange(0, plen as int) =~= p@);
                assert(t.subrange(i - a, i - a + plen) =~= s@.subrange(i as int, i + plen));
                lemma_rfind(t, p@);
                match rfind(t, p@) {
                    Some(k) => {
                        if k < i - a {
                            assert(t.subrange(i - a, i - a + plen) == p@);
                        }
                    },
                    None => {
                        assert(t.subrange(i - a, i - a + plen) == p@);
                    },
                }
            }
            return Some(i);
        }
        proof {
            assert(p@.subrange(0, plen as int) =~= p@);
            assert(t.subrange(i - a, i - a + plen) =~= s@.subrange(i as int, i + plen));
        }
        if i == a {
            proof {
                lemma_rfind(t, p@);
                match rfind(t, p@) {
                    Some(k) => {
                        assert(t.subrange(k, k + plen) == p@);
                    },
                    None => {},
                }
            }
            return None;
        }
        i -= 1;
    }
}


/// Start of the first occurrence of `p` in `s`, if any (`str::find`).
pub open spec fn find_seq(s: Seq<char>, p: Seq<char>) -> Option<int>
    decreases s.len(),
{
    if s.len() < p.len() {
        None
    } else if s.take(p.len() as int) == p {
        Some(0)
    } else if s.len() == 0 {
        None
    } else {
        match find_seq(s.drop_first(), p) {
            Some(i) => Some(i + 1),
            None => None,
        }
    }
}

/// [`find_seq`] is where the first occurrence starts, or none when `p`
/// does not occur.
pub proof fn lemma_find_seq(s: Seq<char>, p: Seq<char>)
    ensures
        find_seq(s, p) matches Some(i) ==> 0 <= i && i + p.len() <= s.len() && s.subrange(i, i + p.len()) == p,
        find_seq(s, p) matches Some(i) ==> forall|j: int| 0 <= j < i ==> #[trigger] s.subrange(j, j + p.len()) != p,
        find_seq(s, p) is None ==> forall|j: int| 0 <= j && j + p.len() <= s.len() ==> #[trigger] s.subrange(j, j + p.len()) != p,
    decreases s.len(),
{
    if s.len() < p.len() {
    } else if s.take(p.len() as int) == p {
        assert(s.subrange(0, p.len() as int) =~= s.take(p.len() as int));
    } else if s.len() == 0 {
        assert(s.take(0) =~= p);
    } else {
        let d = s.drop_first();
        lemma_find_seq(d, p);
        assert(s.subrange(0, p.len() as int) =~= s.take(p.len() as int));
        assert forall|j: int| 1 <= j && j + p.len() <= s.len() implies #[trigger] s.subrange(j, j + p.len()) == d.subrange(j - 1, j - 1 + p.len()) by {
            assert(s.subrange(j, j + p.len()) =~= d.subrange(j - 1, j - 1 + p.len()));
        }
    }
}

/// Start of the first occurrence of `p` in `s[a..b]`, as an index into `s`.
pub fn find_in(s: &Vec<char>, a: usize, b: usize, p: &Vec<char>) -> (r: Option<usize>)
    requires
        a <= b <= s.len(),
    ensures
        match r {
            Some(i) => find_seq(s@.subrange(a as int, b as int), p@) == Some(i - a) && a <= i
                && i + p@.len() <= b,
            None => find_seq(s@.subrange(a as int, b as int), p@) is None,
        },
{
    let ghost t = s@.subrange(a as int, b as int);
    let plen = p.len();
    if plen > b - a {
        proof {
            lemma_find_seq(t, p@);
        }
        return None;
    }
    let last = b - plen;
    let mut i: usize = a;
    while i <= last
        invariant
            a <= i,
            i <= last + 1,
            last == b - plen,
            b <= s.len(),
            b - a >= plen,
            plen == p@.len(),
            t == s@.subrange(a as int, b as int),
            forall|j: int| 0 <= j < i - a ==> #[trigger] t.subrange(j, j + plen) != p@,
        decreases last + 1 - i,
    {
        let hit = range_eq(s, i, i + plen, p, 0, plen);
        proof {
            assert(p@.subrange(0, plen as int) =~= p@);
            assert(t.subrange(i - a, i - a + plen) =~= s@.subrange(i as int, i + plen));
        }
        if hit {
            proof {
                lemma_find_seq(t, p@);
                match find_seq(t, p@) {
                    Some(k) => {
                        if k > i - a {
                            assert(t.subrange(i - a, i - a + plen) == p@);
                        }
                    },
                    None => {
                        assert(t.subrange(i - a, i - a + plen) == p@);
                    },
                }
            }
            return Some(i);
        }
        if i == last {
            proof {
                lemma_find_seq(t, p@);
                match find_seq(t, p@) {
                    Some(k) => {
                        assert(t.subrange(k, k + plen) == p@);
                    },
                    None => {},
                }
            }
            return None;
        }
        i += 1;
    }
    proof {
        lemma_find_seq(t, p@);
        match find_seq(t, p@) {
            Some(k) => {
                assert(t.subrange(k, k + plen) == p@);
            },
            None => {},
        }
    }
    None
}

/// Index of the last whitespace character of `s`, if any.
pub open spec fn last_ws(s: Seq<char>) -> Option<int>
    decreases s.len(),
{
    if s.len() == 0 {
        None
    } else if is_ws(s.last()) {
        Some(s.len() - 1)
    } else {
        last_ws(s.drop_last())
    }
}

/// Index of the last whitespace character of `s[a..b]`, as an index into
/// `s`.
pub fn last_ws_in(s: &Vec<char>, a: usize, b: usize) -> (r: Option<usize>)
    requires
        a <= b <= s.len(),
    ensures
        match r {
            Some(k) => a <= k < b && last_ws(s@.subrange(a as int, b as int)) == Some(k - a),
            None => last_ws(s@.subrange(a as int, b as int)) is None,
        },
{
    let mut e = b;
    while e > a && !is_whitespace(s[e - 1])
        invariant
            a <= e <= b <= s.len(),
            last_ws(s@.subrange(a as int, b as int)) == last_ws(s@.subrange(a as int, e as int)),
        decreases e,
    {
        assert(s@.subrange(a as int, e as int).drop_last() =~= s@.subrange(a as int, e - 1));
        e -= 1;
    }
    if e == a {
        assert(s@.subrange(a as int, a as int).len() == 0);
        None
    } else {
        Some(e - 1)
    }
}

/// Whether `c` is alphanumeric in the Unicode sense (`char::is_alphanumeric`:
/// alphabetic or numeric).
pub uninterp spec fn is_alphanumeric(c: char) -> bool;

/// `char::is_alphanumeric`. The Unicode tables behind it are not restated;
/// the result is tied to the character through [`is_alphanumeric`].
#[verifier::external_body]
pub(crate) fn char_is_alphanumeric(c: char) -> (r: bool)
    ensures
        r == is_alphanumeric(c),
{
    c.is_alphanumeric()
}

/// `s` with non-alphanumeric characters removed from both ends
/// (`trim_matches(|c: char| !c.is_alphanumeric())`).
pub open spec fn strip_non_alnum(s: Seq<char>) -> Seq<char>
    decreases s.len(),
{
    if s.len() > 0 && !is_alphanumeric(s[0]) {
        strip_non_alnum(s.drop_first())
    } else if s.len() > 0 && !is_alphanumeric(s.last()) {
        strip_non_alnum(s.drop_last())
    } else {
        s
    }
}

/// Bounds of `s[a..b]` with non-alphanumeric characters removed from both
/// ends.
pub fn strip_non_alnum_bounds(s: &Vec<char>, a: usize, b: usize) -> (r: (usize, usize))
    requires
        a <= b <= s.len(),
    ensures
        a <= r.0 <= r.1 <= b,
        s@.subrange(r.0 as int, r.1 as int) == strip_non_alnum(s@.subrange(a as int, b as int)),
{
    let mut x = a;
    let mut y = b;
    while x < y && (!char_is_alphanumeric(s[x]) || !char_is_alphanumeric(s[y - 1]))
        invariant
            a <= x <= y <= b <= s.len(),
            strip_non_alnum(s@.subrange(a as int, b as int)) == strip_non_alnum(s@.subrange(x as int, y as int)),
        decreases y - x,
    {
        let ghost t = s@.subrange(x as int, y as int);
        if !char_is_alphanumeric(s[x]) {
            assert(t[0] == s@[x as int]);
            assert(t.drop_first() =~= s@.subrange(x + 1, y as int));
            x += 1;
        } else {
            assert(t[0] == s@[x as int]);
            assert(t.last() == s@[y - 1]);
            assert(t.drop_last() =~= s@.subrange(x as int, y - 1));
            y -= 1;
        }
    }
    proof {
        let t = s@.subrange(x as int, y as int);
        if t.len() > 0 {
            assert(t[0] == s@[x as int]);
            assert(t.last() == s@[y - 1]);
        }
    }
    (x, y)
}

/// Every character of `s` is ASCII.
pub open spec fn is_ascii_text(s: Seq<char>) -> bool {
    forall|i: int| 0 <= i < s.len() ==> (s[i] as u32) < 128
}

/// The Unicode lowercase of `s` (`str::to_lowercase`).
pub uninterp spec fn lowercase(s: Seq<char>) -> Seq<char>;

/// `str::to_lowercase`. Unicode case mapping (which may change the length
/// of the text) is not restated; the result is tied to the argument through
/// [`lowercase`]. On ASCII text the Unicode mapping is the ASCII one: `A` to
/// `Z` become `a` to `z`, and every other ASCII character stays.
#[verifier::external_body]
pub(crate) fn str_to_lowercase(s: &str) -> (r: String)
    ensures
        r@ == lowercase(s@),
        is_ascii_text(s@) ==> r@ == ascii_lower_seq(s@),
{
    s.to_lowercase()
}

/// An ASCII letter or digit (`char::is_ascii_alphanumeric`).
pub open spec fn is_ascii_alnum(c: char) -> bool {
    ('0' <= c && c <= '9') || ('a' <= c && c <= 'z') || ('A' <= c && c <= 'Z')
}

/// `char::is_ascii_alphanumeric`.
pub fn ascii_alnum(c: char) -> (r: bool)
    ensures
        r == is_ascii_alnum(c),
{
    ('0' <= c && c <= '9') || ('a' <= c && c <= 'z') || ('A' <= c && c <= 'Z')
}

/// `a` sorts before `b` in lexicographic order by code point (the order of
/// `str` and `String`, which for UTF-8 equals byte order).
pub open spec fn seq_lt(a: Seq<char>, b: Seq<char>) -> bool
    decreases a.len(),
{
    if a.len() == 0 {
        b.len() > 0
    } else if b.len() == 0 {
        false
    } else if a[0] != b[0] {
        a[0] < b[0]
    } else {
        seq_lt(a.drop_first(), b.drop_first())
    }
}

proof fn lemma_heads_tails_eq(a: Seq<char>, b: Seq<char>)
    requires
        a.len() > 0,
        b.len() > 0,
        a[0] == b[0],
        a.drop_first() == b.drop_first(),
    ensures
        a == b,
{
    assert(a.drop_first().len() == a.len() - 1);
    assert(b.drop_first().len() == b.len() - 1);
    assert(a.len() == b.len());
    assert forall|i: int| 0 <= i < a.len() implies a[i] == b[i] by {
        if i > 0 {
            assert(a[i] == a.drop_first()[i - 1]);
            assert(b[i] == b.drop_first()[i - 1]);
        }
    }
    assert(a =~= b);
}

/// [`seq_lt`] is a strict total order: irreflexive, asymmetric, total on
/// distinct texts, and transitive.
pub proof fn lemma_seq_lt_order(a: Seq<char>, b: Seq<char>, c: Seq<char>)
    ensures
        !seq_lt(a, a),
        seq_lt(a, b) ==> !seq_lt(b, a),
        a != b ==> seq_lt(a, b) || seq_lt(b, a),
        seq_lt(a, b) && seq_lt(b, c) ==> seq_lt(a, c),
    decreases a.len(),
{
    if a.len() > 0 {
        lemma_seq_lt_order(a.drop_first(), a.drop_first(), a.drop_first());
        if b.len() > 0 {
            lemma_seq_lt_order(a.drop_first(), b.drop_first(), b.drop_first());
            if a[0] == b[0] && a.drop_first() == b.drop_first() {
                lemma_heads_tails_eq(a, b);
            }
            if c.len() > 0 {
                lemma_seq_lt_order(a.drop_first(), b.drop_first(), c.drop_first());
            }
        }
    } else if b.len() == 0 {
        assert(a =~= b);
    }
}

/// Whether the characters of `x` sort before those of `y`.
pub fn chars_lt(x: &Vec<char>, y: &Vec<char>) -> (r: bool)
    ensures
        r == seq_lt(x@, y@),
{
    let mut k: usize = 0;
    assert(x@.skip(0) =~= x@);
    assert(y@.skip(0) =~= y@);
    while k < x.len() && k < y.len() && x[k] == y[k]
        invariant
            k <= x@.len(),
            k <= y@.len(),
            seq_lt(x@, y@) == seq_lt(x@.skip(k as int), y@.skip(k as int)),
        decreases x@.len() - k,
    {
        proof {
            let xs = x@.skip(k as int);
            let ys = y@.skip(k as int);
            assert(xs.drop_first() =~= x@.skip(k + 1));
            assert(ys.drop_first() =~= y@.skip(k + 1));
        }
        k += 1;
    }
    proof {
        let xs = x@.skip(k as int);
        let ys = y@.skip(k as int);
        if k < x@.len() {
            assert(xs[0] == x@[k as int]);
        }
        if k < y@.len() {
            assert(ys[0] == y@[k as int]);
        }
    }
    if k == x.len() {
        k < y.len()
    } else if k == y.len() {
        false
    } else {
        x[k] < y[k]
    }
}

/// Whether `a` sorts before `b` (`a < b` on strings).
pub fn str_lt(a: &str, b: &str) -> (r: bool)
    ensures
        r == seq_lt(a@, b@),
{
    let x = chars_of(a);
    let y = chars_of(b);
    chars_lt(&x, &y)
}

} // verus!
