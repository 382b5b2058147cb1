//! Substring and prefix tests on strings, stated over their character
//! sequences.

use vstd::prelude::*;

verus! {

/// `p` occurs as a contiguous run of characters somewhere inside `s`.
pub open spec fn contains_seq(s: Seq<char>, p: Seq<char>) -> bool {
    exists|i: int| 0 <= i && i + p.len() <= s.len() && #[trigger] s.subrange(i, i + p.len()) == p
}

/// Relies on str::contains with a &str pattern: true exactly when the
/// pattern's characters occur contiguously inside the string. The byte-level
/// search agrees with this character-level statement because UTF-8 is
/// self-synchronizing: a byte occurrence of one well-formed string inside
/// another always falls on character boundaries.
#[verifier::external_body]
pub(crate) fn str_contains(s: &str, p: &str) -> (r: bool)
    ensures
        r == contains_seq(s@, p@),
{
    s.contains(p)
}

/// Relies on str::starts_with with a &str pattern: true exactly when the
/// pattern's characters are a prefix of the string's characters.
#[verifier::external_body]
pub(crate) fn str_starts_with(s: &str, p: &str) -> (r: bool)
    ensures
        r == p@.is_prefix_of(s@),
{
    s.starts_with(p)
}

} // verus!
