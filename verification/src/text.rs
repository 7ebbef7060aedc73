//! Case folding and substring search over task text, for the query engine's
//! case-insensitive name matching.

use vstd::prelude::*;

verus! {

/// The lower-case form of a character sequence; what it is on given
/// characters only `str::to_lowercase` decides, and the matching functions
/// speak of it by this name.
pub uninterp spec fn lower_of(s: Seq<char>) -> Seq<char>;

/// Relies on `str::to_lowercase`: the result depends on the characters of
/// the input alone.
#[verifier::external_body]
pub(crate) fn lowercase(s: &str) -> (r: String)
    ensures
        r@ == lower_of(s@),
{
    s.to_lowercase()
}

/// Whether `needle` occurs in `hay` as one contiguous run of characters.
pub open spec fn contains_sub(hay: Seq<char>, needle: Seq<char>) -> bool {
    exists|i: int|
        0 <= i <= hay.len() - needle.len() && #[trigger] hay.subrange(i, i + needle.len() as int)
            == needle
}

/// Relies on `str::contains` with a `&str` pattern: byte-level containment,
/// which on well-formed text coincides with containment of the character
/// sequence, since a UTF-8 encoding can only match at character boundaries.
#[verifier::external_body]
pub(crate) fn str_contains(hay: &str, needle: &str) -> (r: bool)
    ensures
        r == contains_sub(hay@, needle@),
{
    hay.contains(needle)
}

} // verus!
