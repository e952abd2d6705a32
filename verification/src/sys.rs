//! Trusted boundary to the outside crates the engine leans on: identifier
//! generation and parsing (uuid), the clock (chrono), and assembling a
//! `String` from computed characters (std).
//!
//! Everything else in this crate is verified against the contracts stated
//! here.

use vstd::prelude::*;

verus! {

/// What `uuid::Uuid::parse_str` followed by `Display` yields on a given
/// input: `Some` of the canonical hyphenated form when the input parses as
/// a UUID, `None` otherwise. The parser is a pure function of its input.
pub uninterp spec fn uuid_canon(s: Seq<char>) -> Option<Seq<char>>;

/// Relies on `uuid::Uuid::new_v4` and the `Display` impl of `Uuid`: the
/// result is the freshly drawn identifier in its canonical hyphenated form
/// (36 characters), which `Uuid::parse_str` accepts and canonicalizes to
/// itself. Nothing is promised about which identifier comes back: it is
/// random.
#[verifier::external_body]
pub(crate) fn new_uuid_string() -> (r: String)
    ensures
        r@.len() == 36,
        uuid_canon(r@) == Some(r@),
{
    uuid::Uuid::new_v4().to_string()
}

/// Relies on `uuid::Uuid::parse_str` and the `Display` impl of `Uuid`:
/// returns the canonical hyphenated form of the supplied identifier, or
/// `None` when it is not a well-formed UUID.
#[verifier::external_body]
pub(crate) fn canonical_uuid(s: &str) -> (r: Option<String>)
    ensures
        match r {
            Some(t) => uuid_canon(s@) == Some(t@),
            None => uuid_canon(s@) is None,
        },
{
    match uuid::Uuid::parse_str(s) {
        Ok(u) => Some(u.to_string()),
        Err(_) => None,
    }
}

/// Relies on `chrono::Utc::now` and `DateTime::timestamp`: seconds since
/// the epoch. Nothing can be promised of the clock's reading.
#[verifier::external_body]
pub(crate) fn now_ts() -> i64 {
    chrono::Utc::now().timestamp()
}

/// Relies on std's `FromIterator<char> for String`: collecting characters
/// concatenates exactly those characters, in order.
#[verifier::external_body]
pub(crate) fn string_from_chars(v: &Vec<char>) -> (r: String)
    ensures
        r@ == v@,
{
    v.iter().collect()
}

} // verus!
