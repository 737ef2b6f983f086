//! Bridge to the standard library's Unicode case folding, which the
//! recurrence grammar's case-insensitive cadence names are defined over.

use vstd::prelude::*;

verus! {

/// What `str::to_lowercase` yields: the Unicode-lowercased text. The result
/// depends on the characters alone.
pub uninterp spec fn lower_of(s: Seq<char>) -> Seq<char>;

/// Relies on `str::to_lowercase`: Unicode lowercasing, a pure function of the
/// text.
#[verifier::external_body]
pub(crate) fn lowercase(s: &str) -> (r: String)
    ensures
        r@ == lower_of(s@),
{
    s.to_lowercase()
}

} // verus!
