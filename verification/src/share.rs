//! Share codes: a fit or a skill plan as one copy-pasteable line.
//!
//! The artifact's serialized bytes are base64url-encoded (no padding) behind
//! a versioned prefix, so the code survives a chat message or forum post and
//! imports straight into another player's library. The library frames and
//! checks the bytes; turning them into an artifact is the caller's part.

use vstd::prelude::*;
use base64::Engine;
use crate::text::{trim, trim_bounds, starts_with, chars_of, range_eq, slice_chars, string_from_chars, is_ws};

verus! {

/// Prefix marking a share code, and its format version.
pub const SHARE_PREFIX: &'static str = "EVECMDR1:";

/// What a share code carries.
#[derive(Debug, Clone, PartialEq)]
pub struct SharedArtifact {
    /// `"fit"` or `"plan"`.
    pub kind: String,
    pub name: String,
    pub body: String,
}

/// Why a share code was refused.
#[derive(Debug, Clone, PartialEq)]
pub enum ShareError {
    /// The text does not start with the share prefix.
    NotShareCode,
    /// What follows the prefix is not base64url (without padding).
    BadEncoding,
    /// The artifact is neither a fit nor a plan.
    UnknownKind(String),
}

/// The base64url digit for `v` (0 to 63): `A`-`Z`, `a`-`z`, `0`-`9`, `-`, `_`.
pub open spec fn b64_digit(v: int) -> char {
    if v < 26 {
        (65 + v) as char
    } else if v < 52 {
        (97 + v - 26) as char
    } else if v < 62 {
        (48 + v - 52) as char
    } else if v == 62 {
        '-'
    } else {
        '_'
    }
}

/// Base64 with the URL-safe alphabet and no padding: each group of three
/// bytes becomes four digits, a final one or two bytes become two or three.
pub open spec fn b64url(b: Seq<u8>) -> Seq<char>
    decreases b.len(),
{
    if b.len() == 0 {
        seq![]
    } else if b.len() == 1 {
        seq![b64_digit((b[0] as int) / 4), b64_digit(((b[0] as int) % 4) * 16)]
    } else if b.len() == 2 {
        seq![b64_digit((b[0] as int) / 4), b64_digit(((b[0] as int) % 4) * 16 + (b[1] as int) / 16), b64_digit(((b[1] as int) % 16) * 4)]
    } else {
        seq![
            b64_digit((b[0] as int) / 4),
            b64_digit(((b[0] as int) % 4) * 16 + (b[1] as int) / 16),
            b64_digit(((b[1] as int) % 16) * 4 + (b[2] as int) / 64),
            b64_digit((b[2] as int) % 64),
        ] + b64url(b.skip(3))
    }
}

/// `base64::Engine::encode` with `URL_SAFE_NO_PAD`. The contract states the
/// documented encoding, [`b64url`].
#[verifier::external_body]
fn b64_encode(bytes: &[u8]) -> (r: String)
    ensures
        r@ == b64url(bytes@),
{
    base64::engine::general_purpose::URL_SAFE_NO_PAD.encode(bytes)
}

/// `base64::Engine::decode` with `URL_SAFE_NO_PAD`, which accepts only the
/// exact encoding of some bytes (no padding, no stray symbols, no set
/// trailing bits): the bytes when `text` is an encoding, `None` otherwise.
#[verifier::external_body]
fn b64_decode(text: &str) -> (r: Option<Vec<u8>>)
    ensures
        match r {
            Some(b) => b64url(b@) == text@,
            None => forall|b: Seq<u8>| b64url(b) != text@,
        },
{
    base64::engine::general_purpose::URL_SAFE_NO_PAD.decode(text).ok()
}

/// The share code of an artifact whose serialized form is `payload`.
pub open spec fn code_spec(payload: Seq<u8>) -> Seq<char> {
    SHARE_PREFIX@ + b64url(payload)
}

/// The base64url text a code carries: the trimmed code must start with the
/// prefix; what follows it, trimmed, is the encoding.
pub open spec fn carried_spec(code: Seq<char>) -> Option<Seq<char>> {
    let t = trim(code);
    if starts_with(t, SHARE_PREFIX@) {
        Some(trim(t.skip(SHARE_PREFIX@.len() as int)))
    } else {
        None
    }
}

/// The share code for the serialized artifact `payload`: the prefix, then
/// the payload in base64url without padding.
pub fn encode_payload(payload: &[u8]) -> (r: String)
    ensures
        r@ == code_spec(payload@),
{
    let mut v = chars_of(SHARE_PREFIX);
    let enc = b64_encode(payload);
    crate::text::append_str(&mut v, enc.as_str());
    string_from_chars(v.as_slice())
}

/// The serialized artifact a share code carries, tolerating whitespace
/// around the code and after the prefix. Refused when the trimmed code does
/// not start with the prefix, or when the rest is not base64url.
pub fn payload_of(code: &str) -> (r: Result<Vec<u8>, ShareError>)
    ensures
        match r {
            Ok(b) => carried_spec(code@) == Some(b64url(b@)),
            Err(ShareError::NotShareCode) => carried_spec(code@) is None,
            Err(ShareError::BadEncoding) => carried_spec(code@) matches Some(t) && forall|b: Seq<u8>| b64url(b) != t,
            Err(ShareError::UnknownKind(_)) => false,
        },
{
    let s = chars_of(code);
    assert(s@.subrange(0, s@.len() as int) =~= s@);
    let (a, b) = trim_bounds(&s, 0, s.len());
    let p = chars_of(SHARE_PREFIX);
    let plen = p.len();
    let ghost t = s@.subrange(a as int, b as int);
    if plen > b - a || !range_eq(&s, a, a + plen, &p, 0, plen) {
        proof {
            assert(p@.subrange(0, plen as int) =~= p@);
            if plen <= b - a {
                assert(t.take(plen as int) =~= s@.subrange(a as int, a + plen));
            }
        }
        return Err(ShareError::NotShareCode);
    }
    proof {
        assert(p@.subrange(0, plen as int) =~= p@);
        assert(t.take(plen as int) =~= s@.subrange(a as int, a + plen));
        assert(t.skip(plen as int) =~= s@.subrange(a + plen, b as int));
    }
    let (x, y) = trim_bounds(&s, a + plen, b);
    let body = string_from_chars(slice_chars(&s, x, y).as_slice());
    match b64_decode(body.as_str()) {
        Some(bytes) => Ok(bytes),
        None => Err(ShareError::BadEncoding),
    }
}

/// Accepts an artifact of a known kind (`"fit"` or `"plan"`).
pub fn check_kind(artifact: &SharedArtifact) -> (r: Result<(), ShareError>)
    ensures
        match r {
            Ok(()) => artifact.kind@ == "fit"@ || artifact.kind@ == "plan"@,
            Err(e) => artifact.kind@ != "fit"@ && artifact.kind@ != "plan"@ && e == ShareError::UnknownKind(
                artifact.kind,
            ),
        },
{
    if crate::text::str_eq(artifact.kind.as_str(), "fit") || crate::text::str_eq(artifact.kind.as_str(), "plan") {
        Ok(())
    } else {
        Err(ShareError::UnknownKind(artifact.kind.clone()))
    }
}

/// The digits of an encoding are never whitespace.
proof fn lemma_digits_not_ws(v: int)
    requires
        0 <= v < 64,
    ensures
        !is_ws(b64_digit(v)),
        b64_digit(v) != '-' || v == 62,
{
}

proof fn lemma_b64_no_ws(b: Seq<u8>)
    ensures
        forall|i: int| 0 <= i < b64url(b).len() ==> !is_ws(#[trigger] b64url(b)[i]),
    decreases b.len(),
{
    if b.len() >= 3 {
        lemma_b64_no_ws(b.skip(3));
        let head = seq![
            b64_digit((b[0] as int) / 4),
            b64_digit(((b[0] as int) % 4) * 16 + (b[1] as int) / 16),
            b64_digit(((b[1] as int) % 16) * 4 + (b[2] as int) / 64),
            b64_digit((b[2] as int) % 64),
        ];
        assert forall|i: int| 0 <= i < b64url(b).len() implies !is_ws(#[trigger] b64url(b)[i]) by {
            if i >= 4 {
                assert(b64url(b)[i] == b64url(b.skip(3))[i - 4]);
            } else {
                assert(b64url(b)[i] == head[i]);
                lemma_digits_not_ws((b[0] as int) / 4);
                lemma_digits_not_ws(((b[0] as int) % 4) * 16 + (b[1] as int) / 16);
                lemma_digits_not_ws(((b[1] as int) % 16) * 4 + (b[2] as int) / 64);
                lemma_digits_not_ws((b[2] as int) % 64);
            }
        }
    } else if b.len() == 2 {
        lemma_digits_not_ws((b[0] as int) / 4);
        lemma_digits_not_ws(((b[0] as int) % 4) * 16 + (b[1] as int) / 16);
        lemma_digits_not_ws(((b[1] as int) % 16) * 4);
    } else if b.len() == 1 {
        lemma_digits_not_ws((b[0] as int) / 4);
        lemma_digits_not_ws(((b[0] as int) % 4) * 16);
    }
}

proof fn lemma_digit_injective(v: int, w: int)
    requires
        0 <= v < 64,
        0 <= w < 64,
        b64_digit(v) == b64_digit(w),
    ensures
        v == w,
{
}

/// Base64url encoding is one to one.
proof fn lemma_b64_injective(a: Seq<u8>, b: Seq<u8>)
    requires
        b64url(a) == b64url(b),
    ensures
        a == b,
    decreases a.len(),
{
    lemma_b64_len(a);
    lemma_b64_len(b);
    if a.len() == 0 || b.len() == 0 {
        assert(a.len() == 0 && b.len() == 0);
        assert(a =~= b);
    } else {
        let ea = b64url(a);
        let eb = b64url(b);
        assert(ea[0] == eb[0] && ea[1] == eb[1]);
        if a.len() >= 3 && b.len() >= 3 {
            assert(ea[2] == eb[2] && ea[3] == eb[3]);
            lemma_digit_injective((a[0] as int) / 4, (b[0] as int) / 4);
            lemma_digit_injective(((a[0] as int) % 4) * 16 + (a[1] as int) / 16, ((b[0] as int) % 4) * 16 + (b[1] as int) / 16);
            lemma_digit_injective(((a[1] as int) % 16) * 4 + (a[2] as int) / 64, ((b[1] as int) % 16) * 4 + (b[2] as int) / 64);
            lemma_digit_injective((a[2] as int) % 64, (b[2] as int) % 64);
            assert((a[0] as int) == (b[0] as int) && (a[1] as int) == (b[1] as int) && (a[2] as int) == (b[2] as int)) by (nonlinear_arith)
                requires
                    (a[0] as int) / 4 == (b[0] as int) / 4,
                    ((a[0] as int) % 4) * 16 + (a[1] as int) / 16 == ((b[0] as int) % 4) * 16 + (b[1] as int) / 16,
                    ((a[1] as int) % 16) * 4 + (a[2] as int) / 64 == ((b[1] as int) % 16) * 4 + (b[2] as int) / 64,
                    (a[2] as int) % 64 == (b[2] as int) % 64,
                    0 <= (a[0] as int) < 256,
                    0 <= (a[1] as int) < 256,
                    0 <= (a[2] as int) < 256,
                    0 <= (b[0] as int) < 256,
                    0 <= (b[1] as int) < 256,
                    0 <= (b[2] as int) < 256,
            ;
            assert(b64url(a.skip(3)) =~= ea.skip(4));
            assert(b64url(b.skip(3)) =~= eb.skip(4));
            lemma_b64_injective(a.skip(3), b.skip(3));
            assert(a =~= a.take(3) + a.skip(3));
            assert(b =~= b.take(3) + b.skip(3));
            assert(a.take(3) =~= b.take(3));
        } else if a.len() == 2 && b.len() == 2 {
            assert(ea[2] == eb[2]);
            lemma_digit_injective((a[0] as int) / 4, (b[0] as int) / 4);
            lemma_digit_injective(((a[0] as int) % 4) * 16 + (a[1] as int) / 16, ((b[0] as int) % 4) * 16 + (b[1] as int) / 16);
            lemma_digit_injective(((a[1] as int) % 16) * 4, ((b[1] as int) % 16) * 4);
            assert((a[0] as int) == (b[0] as int) && (a[1] as int) == (b[1] as int)) by (nonlinear_arith)
                requires
                    (a[0] as int) / 4 == (b[0] as int) / 4,
                    ((a[0] as int) % 4) * 16 + (a[1] as int) / 16 == ((b[0] as int) % 4) * 16 + (b[1] as int) / 16,
                    ((a[1] as int) % 16) * 4 == ((b[1] as int) % 16) * 4,
                    0 <= (a[0] as int) < 256,
                    0 <= (a[1] as int) < 256,
                    0 <= (b[0] as int) < 256,
                    0 <= (b[1] as int) < 256,
            ;
            assert(a =~= b);
        } else {
            assert(a.len() == 1 && b.len() == 1);
            lemma_digit_injective((a[0] as int) / 4, (b[0] as int) / 4);
            lemma_digit_injective(((a[0] as int) % 4) * 16, ((b[0] as int) % 4) * 16);
            assert((a[0] as int) == (b[0] as int)) by (nonlinear_arith)
                requires
                    (a[0] as int) / 4 == (b[0] as int) / 4,
                    ((a[0] as int) % 4) * 16 == ((b[0] as int) % 4) * 16,
                    0 <= (a[0] as int) < 256,
                    0 <= (b[0] as int) < 256,
            ;
            assert(a =~= b);
        }
    }
}

/// Length of an encoding: four digits per three bytes, two or three for a
/// final one or two.
proof fn lemma_b64_len(b: Seq<u8>)
    ensures
        b64url(b).len() == 4 * (b.len() / 3) + if b.len() % 3 == 0 {
            0int
        } else {
            (b.len() % 3 + 1) as int
        },
    decreases b.len(),
{
    if b.len() >= 3 {
        lemma_b64_len(b.skip(3));
    }
}

/// Encoding a payload and reading the code back gives the payload again,
/// also when the code is pasted with whitespace around it.
pub proof fn lemma_share_round_trip(payload: Seq<u8>, before: Seq<char>, after: Seq<char>, decoded: Seq<u8>)
    requires
        forall|i: int| 0 <= i < before.len() ==> is_ws(#[trigger] before[i]),
        forall|i: int| 0 <= i < after.len() ==> is_ws(#[trigger] after[i]),
        carried_spec(before + code_spec(payload) + after) == Some(b64url(decoded)),
    ensures
        decoded == payload,
{
    let code = code_spec(payload);
    lemma_b64_no_ws(payload);
    reveal_strlit("EVECMDR1:");
    assert(SHARE_PREFIX@.len() == 9);
    assert(!is_ws(SHARE_PREFIX@[0]));
    crate::text::lemma_trim_padded(before, code, after);
    assert(trim(before + code + after) == code);
    assert(code.take(9) =~= SHARE_PREFIX@);
    assert(code.skip(9) =~= b64url(payload));
    lemma_trim_of_clean(b64url(payload));
    lemma_b64_injective(decoded, payload);
}

proof fn lemma_trim_of_clean(s: Seq<char>)
    requires
        forall|i: int| 0 <= i < s.len() ==> !is_ws(#[trigger] s[i]),
    ensures
        trim(s) == s,
{
    crate::text::lemma_trim_padded(seq![], s, seq![]);
    assert(seq![] + s + seq![] =~= s);
}

} // verus!
