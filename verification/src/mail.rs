//! EVEmail: mail headers, single mails, and reading them as plain text.
//!
//! EVE mail bodies carry the game's HTML-ish markup, so [`strip_markup`]
//! reduces them to readable text; [`unread_count`] drives the badge.

use vstd::prelude::*;
use crate::text::{
    ascii_lower_seq, ascii_lower_range, chars_of, find_char, lemma_find_char_is, replace_all,
    replace_chars, starts_with, string_from_chars, trim_start, trim_start_bound,
};

verus! {

/// A mail recipient reference.
#[derive(Debug, Clone, PartialEq, Eq)]
pub struct MailRecipient {
    pub recipient_id: i64,
    pub recipient_type: String,
}

/// A mail header (ESI `GET /characters/{id}/mail/`).
#[derive(Debug, Clone, PartialEq, Eq)]
pub struct MailHeader {
    pub mail_id: i64,
    pub subject: String,
    /// Sender id (character/corporation/alliance/mailing-list).
    pub from: i64,
    pub timestamp: String,
    pub is_read: bool,
    pub labels: Vec<i64>,
    pub recipients: Vec<MailRecipient>,
}

/// A single mail with its body (ESI `GET /characters/{id}/mail/{mail_id}/`).
#[derive(Debug, Clone, PartialEq, Eq)]
pub struct Mail {
    pub subject: String,
    pub from: i64,
    pub body: String,
    pub timestamp: String,
    pub read: bool,
    pub labels: Vec<i64>,
    pub recipients: Vec<MailRecipient>,
}

/// The predicate "not read".
pub open spec fn is_unread() -> spec_fn(MailHeader) -> bool {
    |h: MailHeader| !h.is_read
}

/// Number of unread headers.
pub fn unread_count(headers: &[MailHeader]) -> (r: usize)
    ensures
        r == headers@.filter(is_unread()).len(),
{
    let mut n: usize = 0;
    let mut i: usize = 0;
    while i < headers.len()
        invariant
            i <= headers@.len(),
            n == headers@.take(i as int).filter(is_unread()).len(),
            n <= i,
        decreases headers@.len() - i,
    {
        proof {
            assert(headers@.take(i + 1) =~= headers@.take(i as int).push(headers@[i as int]));
            headers@.take(i as int).lemma_filter_push(headers@[i as int], is_unread());
        }
        if !headers[i].is_read {
            n += 1;
        }
        i += 1;
    }
    assert(headers@.take(i as int) =~= headers@);
    n
}

/// Whether a tag's text makes it a line break (`br`, `BR/`, ` br` …).
pub open spec fn is_break_tag(tag: Seq<char>) -> bool {
    starts_with(ascii_lower_seq(trim_start(tag)), seq!['b', 'r'])
}

/// `s` with every `<…>` tag dropped, break tags turned into newlines; an
/// unclosed tag swallows the rest of the text.
pub open spec fn drop_tags(s: Seq<char>) -> Seq<char>
    decreases s.len(),
{
    if s.len() == 0 {
        seq![]
    } else if s[0] == '<' {
        let rest = s.drop_first();
        let k = find_char(rest, '>');
        let tag = rest.take(k as int);
        let after = if k < rest.len() {
            rest.skip(k as int + 1)
        } else {
            seq![]
        };
        proof {
            crate::text::lemma_find_char(rest, '>');
        }
        (if is_break_tag(tag) {
            seq!['\n']
        } else {
            seq![]
        }) + drop_tags(after)
    } else {
        seq![s[0]] + drop_tags(s.drop_first())
    }
}

/// The plain text [`strip_markup`] produces: tags dropped, then the common
/// entities decoded, `&amp;` last.
pub open spec fn plain_text(markup: Seq<char>) -> Seq<char> {
    replace_all(
        replace_all(
            replace_all(replace_all(drop_tags(markup), "&lt;"@, "<"@), "&gt;"@, ">"@),
            "&nbsp;"@,
            " "@,
        ),
        "&amp;"@,
        "&"@,
    )
}

fn drop_tags_exec(s: &Vec<char>) -> (r: Vec<char>)
    ensures
        r@ == drop_tags(s@),
{
    let n = s.len();
    let mut out: Vec<char> = Vec::new();
    let mut i: usize = 0;
    assert(s@.skip(0) =~= s@);
    while i < n
        invariant
            n == s@.len(),
            i <= n,
            drop_tags(s@) == out@ + drop_tags(s@.skip(i as int)),
        decreases n - i,
    {
        let ghost t = s@.skip(i as int);
        assert(t[0] == s@[i as int]);
        if s[i] == '<' {
            let mut j = i + 1;
            while j < n && s[j] != '>'
                invariant
                    i < j <= n,
                    n == s@.len(),
                    forall|m: int| i + 1 <= m < j ==> s@[m] != '>',
                decreases n - j,
            {
                j += 1;
            }
            let ghost rest = t.drop_first();
            proof {
                assert(rest =~= s@.skip(i + 1));
                assert forall|m: int| 0 <= m < j - (i + 1) implies rest[m] != '>' by {
                    assert(rest[m] == s@[i + 1 + m]);
                }
                if j < n {
                    assert(rest[j - (i + 1)] == s@[j as int]);
                }
                lemma_find_char_is(rest, '>', j - (i + 1));
                assert(rest.take(j - (i + 1)) =~= s@.subrange(i + 1, j as int));
            }
            let a = trim_start_bound(s, i + 1, j);
            let hi = if j - a >= 2 {
                a + 2
            } else {
                j
            };
            let low = ascii_lower_range(s, a, hi);
            let br = low.len() == 2 && low[0] == 'b' && low[1] == 'r';
            proof {
                let tag = s@.subrange(i + 1, j as int);
                let ts = trim_start(tag);
                assert(ts =~= s@.subrange(a as int, j as int));
                let lts = ascii_lower_seq(ts);
                if lts.len() >= 2 {
                    assert(lts.take(2) =~= low@);
                }
                if br {
                    assert(lts.take(2) =~= seq!['b', 'r']);
                }
                if starts_with(lts, seq!['b', 'r']) {
                    assert(low@ =~= lts.take(2));
                    assert(low@[0] == 'b' && low@[1] == 'r');
                }
            }
            if br {
                out.push('\n');
            }
            if j < n {
                proof {
                    assert(rest.skip(j - (i + 1) + 1) =~= s@.skip(j + 1));
                }
                i = j + 1;
            } else {
                proof {
                    assert(s@.skip(n as int) =~= seq![]);
                }
                i = n;
            }
            proof {
                if br {
                    assert(out@ + drop_tags(s@.skip(i as int)) =~= out@.drop_last() + (seq!['\n'] + drop_tags(s@.skip(i as int))));
                } else {
                    assert(seq![] + drop_tags(s@.skip(i as int)) =~= drop_tags(s@.skip(i as int)));
                }
            }
        } else {
            out.push(s[i]);
            proof {
                assert(t.drop_first() =~= s@.skip(i + 1));
                assert(out@ + drop_tags(s@.skip(i + 1)) =~= out@.drop_last() + (seq![s@[i as int]] + drop_tags(s@.skip(i + 1))));
            }
            i += 1;
        }
    }
    assert(s@.skip(n as int) =~= seq![]);
    assert(out@ + seq![] =~= out@);
    out
}

/// Reduce EVE's HTML-ish mail markup to readable plain text: `<br>` becomes a
/// newline, all other tags are dropped, and the common entities are decoded.
pub fn strip_markup(markup: &str) -> (r: String)
    ensures
        r@ == plain_text(markup@),
{
    proof {
        reveal_strlit("&lt;");
        reveal_strlit("&gt;");
        reveal_strlit("&nbsp;");
        reveal_strlit("&amp;");
    }
    let s = chars_of(markup);
    let a = drop_tags_exec(&s);
    let b = replace_chars(&a, &chars_of("&lt;"), &chars_of("<"));
    let c = replace_chars(&b, &chars_of("&gt;"), &chars_of(">"));
    let d = replace_chars(&c, &chars_of("&nbsp;"), &chars_of(" "));
    let e = replace_chars(&d, &chars_of("&amp;"), &chars_of("&"));
    string_from_chars(&e)
}

} // verus!
