use vstd::prelude::*;

verus! {

/// `needle` occurs as a contiguous run of characters inside `hay`.
pub open spec fn is_substring(needle: Seq<char>, hay: Seq<char>) -> bool {
    exists|k: int|
        0 <= k && k + needle.len() <= hay.len() && #[trigger] hay.subrange(k, k + needle.len())
            == needle
}

/// Containment in either direction between two tokens. Equal tokens are
/// related, since every sequence occurs inside itself.
pub open spec fn sub_related(a: Seq<char>, b: Seq<char>) -> bool {
    is_substring(a, b) || is_substring(b, a)
}

/// The lowercase image of a character sequence, exactly as
/// `str::to_lowercase` computes it (full Unicode case folding, which may
/// change the length of the sequence).
pub uninterp spec fn lower_of(s: Seq<char>) -> Seq<char>;

/// Relies on `str::to_lowercase`: the result depends on the characters of
/// the input alone, so it is named by `lower_of`.
#[verifier::external_body]
pub(crate) fn to_lower(s: &str) -> (r: String)
    ensures
        r@ == lower_of(s@),
{
    s.to_lowercase()
}

/// Relies on `str::contains` with a `&str` pattern: it returns true exactly
/// when the pattern's characters occur contiguously in `hay` (a byte-level
/// match in valid UTF-8 always falls on character boundaries).
#[verifier::external_body]
pub(crate) fn contains_sub(hay: &str, needle: &str) -> (r: bool)
    ensures
        r == is_substring(needle@, hay@),
{
    hay.contains(needle)
}

/// Either-direction containment check between two tokens.
pub(crate) fn sub_related_exec(a: &str, b: &str) -> (r: bool)
    ensures
        r == sub_related(a@, b@),
{
    contains_sub(b, a) || contains_sub(a, b)
}

} // verus!
