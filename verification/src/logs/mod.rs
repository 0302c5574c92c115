//! The game's local logs: decoding the files and the timestamp every line
//! starts with. The chat and combat line parsers live in the submodules.

use vstd::prelude::*;
use crate::text::{trim, trim_start, trim_bounds, trim_start_bound, find_char, lemma_find_char, lemma_find_char_is, slice_chars, string_from_chars};

pub mod chatlog;
pub mod gamelog;

verus! {

/// Layout of the timestamp inside `[ ... ]` at the start of log lines.
pub const TS_FORMAT: &'static str = "[year].[month].[day] [hour]:[minute]:[second]";

/// The instant (Unix seconds, the text read as UTC) that `time` parses from
/// `text` with the format description `format`, if it parses.
pub uninterp spec fn parsed_datetime(text: Seq<char>, format: Seq<char>) -> Option<i64>;

/// Parses `text` as a date and time laid out as `format` (a version-1
/// `time` format description) with `time::PrimitiveDateTime::parse`, read as
/// UTC, as Unix seconds. The calendar rules `time` applies are not restated;
/// the result is tied to both arguments through [`parsed_datetime`].
#[verifier::external_body]
fn parse_datetime(text: &str, format: &str) -> (r: Option<i64>)
    ensures
        r == parsed_datetime(text@, format@),
{
    let items = time::format_description::parse_borrowed::<1>(format).ok()?;
    let dt = time::PrimitiveDateTime::parse(text, &items).ok()?;
    Some(dt.assume_utc().unix_timestamp())
}

/// The `[ timestamp ] rest` split of a log line: the instant in the brackets
/// (after trimming) and the rest with its leading whitespace removed; none
/// when the line (after leading whitespace) does not start with `[`, has no
/// `]`, or the bracketed text is not a timestamp.
pub open spec fn split_ts_spec(line: Seq<char>) -> Option<(i64, Seq<char>)> {
    let l = trim_start(line);
    if l.len() == 0 || l[0] != '[' {
        None
    } else {
        let rest = l.drop_first();
        let j = find_char(rest, ']');
        if j >= rest.len() {
            None
        } else {
            match parsed_datetime(trim(rest.take(j as int)), TS_FORMAT@) {
                None => None,
                Some(t) => Some((t, trim_start(rest.skip(j as int + 1)))),
            }
        }
    }
}

/// [`split_ts_spec`] on the line `s[a..b]`: the instant and where the rest
/// starts.
pub fn split_timestamp(s: &Vec<char>, a: usize, b: usize) -> (r: Option<(i64, usize)>)
    requires
        a <= b <= s.len(),
    ensures
        match r {
            Some((t, k)) => a <= k <= b && split_ts_spec(s@.subrange(a as int, b as int)) == Some(
                (t, s@.subrange(k as int, b as int)),
            ),
            None => split_ts_spec(s@.subrange(a as int, b as int)) is None,
        },
{
    let x = trim_start_bound(s, a, b);
    if x == b || s[x] != '[' {
        proof {
            if x < b {
                assert(s@.subrange(x as int, b as int)[0] == s@[x as int]);
            }
        }
        return None;
    }
    let ghost l = s@.subrange(x as int, b as int);
    assert(l[0] == s@[x as int]);
    let ghost rest = l.drop_first();
    assert(rest =~= s@.subrange(x + 1, b as int));
    let mut j = x + 1;
    while j < b && s[j] != ']'
        invariant
            x + 1 <= j <= b <= s.len(),
            forall|m: int| x + 1 <= m < j ==> s@[m] != ']',
        decreases b - j,
    {
        j += 1;
    }
    proof {
        assert forall|m: int| 0 <= m < j - x - 1 implies rest[m] != ']' by {
            assert(rest[m] == s@[x + 1 + m]);
        }
        if j < b {
            assert(rest[j - x - 1] == s@[j as int]);
        }
        lemma_find_char_is(rest, ']', j - x - 1);
    }
    if j == b {
        return None;
    }
    let (ta, tb) = trim_bounds(s, x + 1, j);
    assert(rest.take(j - x - 1) =~= s@.subrange(x + 1, j as int));
    let ts = string_from_chars(slice_chars(s, ta, tb).as_slice());
    let fmt = TS_FORMAT;
    match parse_datetime(ts.as_str(), fmt) {
        None => None,
        Some(t) => {
            let k = trim_start_bound(s, j + 1, b);
            assert(rest.skip(j - x) =~= s@.subrange(j + 1, b as int));
            Some((t, k))
        },
    }
}

/// A leading (high) surrogate.
pub open spec fn is_high_surrogate(u: u16) -> bool {
    0xD800 <= u <= 0xDBFF
}

/// A trailing (low) surrogate.
pub open spec fn is_low_surrogate(u: u16) -> bool {
    0xDC00 <= u <= 0xDFFF
}

/// The code point a surrogate pair stands for.
pub open spec fn pair_code(hi: u16, lo: u16) -> int {
    0x10000 + (hi - 0xD800) * 0x400 + (lo - 0xDC00)
}

/// The UTF-16 decoding of `units` (`String::from_utf16_lossy`): a leading
/// surrogate followed by a trailing one is the character they encode
/// together, any other surrogate is U+FFFD, and every other unit is the
/// character with that code.
pub open spec fn utf16_lossy(units: Seq<u16>) -> Seq<char>
    decreases units.len(),
{
    if units.len() == 0 {
        seq![]
    } else if units.len() >= 2 && is_high_surrogate(units[0]) && is_low_surrogate(units[1]) {
        seq![pair_code(units[0], units[1]) as char] + utf16_lossy(units.skip(2))
    } else if is_high_surrogate(units[0]) || is_low_surrogate(units[0]) {
        seq!['\u{FFFD}'] + utf16_lossy(units.skip(1))
    } else {
        seq![units[0] as char] + utf16_lossy(units.skip(1))
    }
}

/// The UTF-8 decoding of `bytes`, each invalid sequence replaced by U+FFFD
/// (`String::from_utf8_lossy`).
pub uninterp spec fn utf8_lossy(bytes: Seq<u8>) -> Seq<char>;

/// `char::from_u32`: the character with code point `v`, none when `v` is a
/// surrogate or above U+10FFFF.
#[verifier::external_body]
fn char_from_u32(v: u32) -> (r: Option<char>)
    ensures
        r == if v < 0xD800 || (0xE000 <= v && v <= 0x10FFFF) {
            Some(v as char)
        } else {
            None::<char>
        },
{
    char::from_u32(v)
}

/// The UTF-16 decoding of `units`, unpaired surrogates replaced by U+FFFD
/// (see [`utf16_lossy`]).
fn decode_utf16(units: &[u16]) -> (r: String)
    ensures
        r@ == utf16_lossy(units@),
{
    let ghost u = units@;
    let mut out: Vec<char> = Vec::new();
    let mut i: usize = 0;
    assert(u.skip(0) =~= u);
    while i < units.len()
        invariant
            u == units@,
            i <= u.len(),
            out@ + utf16_lossy(u.skip(i as int)) == utf16_lossy(u),
        decreases u.len() - i,
    {
        let ghost rest = u.skip(i as int);
        let ghost before = out@;
        let a = units[i];
        assert(rest[0] == a);
        if i + 1 < units.len() && 0xD800 <= a && a <= 0xDBFF && 0xDC00 <= units[i + 1] && units[i + 1] <= 0xDFFF {
            let b = units[i + 1];
            assert(rest[1] == b);
            let code: u32 = 0x10000 + (a as u32 - 0xD800) * 0x400 + (b as u32 - 0xDC00);
            assert(code == pair_code(a, b));
            let c = match char_from_u32(code) {
                Some(c) => c,
                None => '\u{FFFD}',
            };
            out.push(c);
            assert(rest.skip(2) =~= u.skip(i + 2));
            assert(out@ + utf16_lossy(u.skip(i + 2)) =~= before + (seq![c] + utf16_lossy(rest.skip(2))));
            i += 2;
        } else {
            let c = if 0xD800 <= a && a <= 0xDFFF {
                '\u{FFFD}'
            } else {
                match char_from_u32(a as u32) {
                    Some(c) => c,
                    None => '\u{FFFD}',
                }
            };
            out.push(c);
            assert(rest.skip(1) =~= u.skip(i + 1));
            assert(out@ + utf16_lossy(u.skip(i + 1)) =~= before + (seq![c] + utf16_lossy(rest.skip(1))));
            i += 1;
        }
    }
    assert(u.skip(i as int) =~= seq![]);
    assert(out@ + seq![] =~= out@);
    string_from_chars(out.as_slice())
}

/// `String::from_utf8_lossy`. The decoding rules are not restated; the
/// result is tied to the bytes through [`utf8_lossy`].
#[verifier::external_body]
fn decode_utf8(bytes: &[u8]) -> (r: String)
    ensures
        r@ == utf8_lossy(bytes@),
{
    String::from_utf8_lossy(bytes).into_owned()
}

/// Little-endian 16-bit units of `b`, a trailing odd byte dropped.
pub open spec fn le_units(b: Seq<u8>) -> Seq<u16> {
    Seq::new(b.len() / 2, |i: int| (b[2 * i] + 256 * b[2 * i + 1]) as u16)
}

/// Number of zero bytes in `b`.
pub open spec fn nul_count(b: Seq<u8>) -> nat
    decreases b.len(),
{
    if b.len() == 0 {
        0
    } else {
        nul_count(b.drop_last()) + if b.last() == 0 {
            1nat
        } else {
            0nat
        }
    }
}

/// The text of a log file's bytes: UTF-16LE after a `FF FE` mark, UTF-8
/// after an `EF BB BF` mark; without a mark, UTF-16LE when more than a third
/// of the bytes are zero, else UTF-8.
pub open spec fn decoded_spec(b: Seq<u8>) -> Seq<char> {
    if b.len() >= 2 && b[0] == 0xFF && b[1] == 0xFE {
        utf16_lossy(le_units(b.skip(2)))
    } else if b.len() >= 3 && b[0] == 0xEF && b[1] == 0xBB && b[2] == 0xBF {
        utf8_lossy(b.skip(3))
    } else if b.len() > 0 && nul_count(b) * 3 > b.len() {
        utf16_lossy(le_units(b))
    } else {
        utf8_lossy(b)
    }
}

/// Little-endian 16-bit units of `b[a..]`.
fn units_from(b: &[u8], a: usize) -> (r: Vec<u16>)
    requires
        a <= b@.len(),
    ensures
        r@ == le_units(b@.skip(a as int)),
{
    let mut r: Vec<u16> = Vec::new();
    let n = (b.len() - a) / 2;
    let mut i: usize = 0;
    let mut p: usize = a;
    assert(a + 2 * n <= b@.len()) by (nonlinear_arith)
        requires
            n == (b@.len() - a) / 2,
            a <= b@.len(),
    ;
    while i < n
        invariant
            a <= b@.len(),
            n == (b@.len() - a) / 2,
            a + 2 * n <= b@.len(),
            i <= n,
            p == a + 2 * i,
            r@ == le_units(b@.skip(a as int)).take(i as int),
        decreases n - i,
    {
        let lo = b[p] as u16;
        let hi = b[p + 1] as u16;
        r.push(lo + 256 * hi);
        assert(le_units(b@.skip(a as int)).take(i + 1) =~= le_units(b@.skip(a as int)).take(i as int).push(
            (lo + 256 * hi) as u16,
        ));
        i += 1;
        p += 2;
    }
    assert(le_units(b@.skip(a as int)).take(n as int) =~= le_units(b@.skip(a as int)));
    r
}

/// Decodes a log file's bytes to text: UTF-16LE after a byte-order mark
/// `FF FE`, UTF-8 after `EF BB BF`; without a mark, UTF-16LE when more than
/// a third of the bytes are zero, else UTF-8. Undecodable sequences become
/// U+FFFD.
pub fn decode_log_bytes(bytes: &[u8]) -> (r: String)
    ensures
        r@ == decoded_spec(bytes@),
{
    let n = bytes.len();
    if n >= 2 && bytes[0] == 0xFF && bytes[1] == 0xFE {
        let units = units_from(bytes, 2);
        return decode_utf16(units.as_slice());
    }
    if n >= 3 && bytes[0] == 0xEF && bytes[1] == 0xBB && bytes[2] == 0xBF {
        let mut rest: Vec<u8> = Vec::new();
        let mut k: usize = 3;
        while k < n
            invariant
                3 <= k <= n,
                n == bytes@.len(),
                rest@ == bytes@.subrange(3, k as int),
            decreases n - k,
        {
            rest.push(bytes[k]);
            assert(bytes@.subrange(3, k + 1) =~= bytes@.subrange(3, k as int).push(bytes@[k as int]));
            k += 1;
        }
        assert(bytes@.subrange(3, n as int) =~= bytes@.skip(3));
        return decode_utf8(rest.as_slice());
    }
    let mut nul: usize = 0;
    let mut k: usize = 0;
    while k < n
        invariant
            k <= n,
            n == bytes@.len(),
            nul == nul_count(bytes@.take(k as int)),
            nul <= k,
        decreases n - k,
    {
        assert(bytes@.take(k + 1).drop_last() =~= bytes@.take(k as int));
        if bytes[k] == 0 {
            nul += 1;
        }
        k += 1;
    }
    assert(bytes@.take(n as int) =~= bytes@);
    if n > 0 && nul as u128 * 3 > n as u128 {
        let units = units_from(bytes, 0);
        assert(bytes@.skip(0) =~= bytes@);
        return decode_utf16(units.as_slice());
    }
    decode_utf8(bytes)
}

} // verus!
