//! Small string helpers shared by the query compiler and the match
//! collector.
use vstd::prelude::*;

verus! {

/// Relies on str's `PartialEq`: two string slices are equal exactly when
/// their character sequences are equal.
#[verifier::external_body]
pub(crate) fn str_eq(a: &str, b: &str) -> (r: bool)
    ensures
        r == (a@ == b@),
{
    a == b
}

/// What lower-casing a string returns: a function of the characters alone.
pub uninterp spec fn lower_of(s: Seq<char>) -> Seq<char>;

/// Relies on `str::to_lowercase`: the result depends on the characters
/// alone, and an empty string stays empty.
#[verifier::external_body]
pub(crate) fn to_lowercase(s: &str) -> (r: String)
    ensures
        r@ == lower_of(s@),
        s@.len() == 0 ==> r@.len() == 0,
{
    s.to_lowercase()
}

/// Does `b` occur in `a` as a contiguous run of characters?
pub open spec fn spec_contains_sub(a: Seq<char>, b: Seq<char>) -> bool {
    exists|k: int| 0 <= k && k + b.len() <= a.len() && #[trigger] a.subrange(k, k + b.len()) == b
}

/// Relies on `str::contains` with a string pattern: true exactly when the
/// needle occurs as a substring.
#[verifier::external_body]
pub(crate) fn str_contains(a: &str, b: &str) -> (r: bool)
    ensures
        r == spec_contains_sub(a@, b@),
{
    a.contains(b)
}

/// Relies on `String::from_utf8`: ASCII bytes are valid UTF-8 and decode to
/// exactly their characters, one per byte.
#[verifier::external_body]
pub(crate) fn ascii_string(v: Vec<u8>) -> (r: String)
    requires
        forall|i: int| 0 <= i < v@.len() ==> v@[i] < 0x80,
    ensures
        r@.len() == v@.len(),
        forall|i: int| 0 <= i < v@.len() ==> r@[i] == v@[i] as char,
{
    String::from_utf8(v).unwrap()
}

} // verus!
