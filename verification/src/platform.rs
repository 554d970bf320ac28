//! Platform conventions that only outside code can compute: Unicode case
//! folding and the recognition of a drive-rooted (absolute) path.

use vstd::prelude::*;

verus! {

/// The case-folded form of a character sequence, as `str::to_lowercase`
/// computes it.  Left uninterpreted: the Unicode lowercase mapping is far too
/// large to restate, and it depends on the characters alone.
pub uninterp spec fn lower_of(s: Seq<char>) -> Seq<char>;

/// Relies on `str::to_lowercase`: the Unicode lowercase equivalent of `s`,
/// a function of the characters of `s` alone.
#[verifier::external_body]
pub(crate) fn fold_case(s: &str) -> (r: String)
    ensures
        r@ == lower_of(s@),
{
    s.to_lowercase()
}

/// Whether the regular expression `^\w:` matches `s`: a word character in
/// first position followed by a colon, the platform family's drive-root
/// shape.  Left uninterpreted: the Unicode word-character class is too large
/// to restate, and the answer depends on the characters alone.
pub uninterp spec fn drive_prefixed(s: Seq<char>) -> bool;

/// Relies on `regex::Regex::new` and `regex::Regex::is_match`: the pattern
/// `^\w:` is fixed and well-formed, so compiling it cannot fail, and whether
/// it matches depends on the characters of `s` alone.
#[verifier::external_body]
pub(crate) fn is_drive_rooted(s: &str) -> (r: bool)
    ensures
        r == drive_prefixed(s@),
{
    regex::Regex::new("^\\w:").unwrap().is_match(s)
}

} // verus!
