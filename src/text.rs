//! Character-level access to card and hand text.
use vstd::prelude::*;

use substring::Substring;

verus! {

/// Relies on `substring::Substring::substring` (substring 1.4): the
/// characters of `s` from position `start` up to, not including, `end`,
/// counted in characters; an empty string when `end <= start`.
#[verifier::external_body]
pub(crate) fn char_range(s: &str, start: usize, end: usize) -> (r: &str)
    ensures
        start < end <= s@.len() ==> r@ == s@.subrange(start as int, end as int),
        end <= start ==> r@.len() == 0,
{
    s.substring(start, end)
}

} // verus!
