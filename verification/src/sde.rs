//! Reading the static data export's CSV files: the columns a header row
//! names.

use vstd::prelude::*;
use crate::text::{chars_of, split_bounds, split_on, trim, trim_bounds, slice_chars, string_from_chars};

verus! {

/// The columns of a CSV header row as `(name, index)`, one per
/// comma-separated field in order, each name trimmed. Read as a map from
/// name to index, a later column of the same name replaces an earlier one.
pub fn csv_columns(header: &str) -> (r: Vec<(String, usize)>)
    ensures
        r@.len() == split_on(header@, ',').len(),
        forall|i: int|
            0 <= i < r@.len() ==> (#[trigger] r@[i]).0@ == trim(split_on(header@, ',')[i]) && r@[i].1 == i,
{
    let s = chars_of(header);
    let bounds = split_bounds(&s, 0, s.len(), ',');
    assert(s@.subrange(0, s@.len() as int) =~= s@);
    let ghost fields = split_on(header@, ',');
    let mut out: Vec<(String, usize)> = Vec::new();
    let mut k: usize = 0;
    while k < bounds.len()
        invariant
            s@ == header@,
            fields == split_on(header@, ','),
            bounds@.len() == fields.len(),
            forall|i: int| #![trigger bounds@[i]] 0 <= i < bounds@.len() ==> 0 <= bounds@[i].0 <= bounds@[i].1 <= s@.len(),
            forall|i: int|
                0 <= i < bounds@.len() ==> s@.subrange(bounds@[i].0 as int, bounds@[i].1 as int) == #[trigger] fields[i],
            k <= bounds@.len(),
            out@.len() == k,
            forall|i: int| 0 <= i < k ==> (#[trigger] out@[i]).0@ == trim(fields[i]) && out@[i].1 == i,
        decreases bounds@.len() - k,
    {
        let (a, b) = bounds[k];
        assert(s@.subrange(a as int, b as int) == fields[k as int]);
        let (ta, tb) = trim_bounds(&s, a, b);
        let name = slice_chars(&s, ta, tb);
        out.push((string_from_chars(name.as_slice()), k));
        k += 1;
    }
    out
}

} // verus!
