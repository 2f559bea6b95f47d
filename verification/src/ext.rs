//! Trusted wrappers around the outside crates and the few pieces of std
//! that vstd gives no specification for. Each wrapper's body is a single
//! call; its contract is what the called function's documentation promises.

use vstd::prelude::*;

verus! {

/// Relies on `chrono::Local::now` and `DateTime::to_rfc3339`: the current
/// local wall-clock time as an RFC 3339 string with a timezone offset.
/// Nothing is promised of the value, which depends on the clock.
#[verifier::external_body]
pub(crate) fn now_rfc3339() -> (r: String) {
    chrono::Local::now().to_rfc3339()
}

/// Relies on `uuid::Uuid::new_v4` and its `Display` form: a freshly drawn
/// random identifier in hyphenated form. Nothing is promised of the value,
/// which depends on the random number generator.
#[verifier::external_body]
pub(crate) fn random_id_string() -> (r: String) {
    uuid::Uuid::new_v4().to_string()
}

/// What `char::is_whitespace` returns for a character.
pub uninterp spec fn is_whitespace(c: char) -> bool;

/// Relies on `char::is_whitespace`: whether the character counts as
/// Unicode whitespace, a function of the character alone.
#[verifier::external_body]
pub(crate) fn char_is_whitespace(c: char) -> (r: bool)
    ensures
        r == is_whitespace(c),
{
    c.is_whitespace()
}

/// What `str::to_lowercase` returns for a given sequence of characters.
pub uninterp spec fn folded(s: Seq<char>) -> Seq<char>;

/// Relies on `str::to_lowercase`: the lowercased form of the string,
/// a function of its characters alone.
#[verifier::external_body]
pub(crate) fn fold_case(s: &str) -> (r: String)
    ensures
        r@ == folded(s@),
{
    s.to_lowercase()
}

/// Relies on `String`'s `FromIterator<char>` implementation: collecting
/// characters yields the string holding exactly those characters in order.
#[verifier::external_body]
pub(crate) fn string_from_chars(v: &Vec<char>) -> (r: String)
    ensures
        r@ == v@,
{
    v.iter().collect()
}

} // verus!
