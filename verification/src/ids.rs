//! Identifier and clock primitives taken from outside crates.
//!
//! Identifiers travel through the library as the 128-bit values of UUIDs;
//! the canonical hyphenated text form appears only in stored documents.

use vstd::prelude::*;

verus! {

/// The value that parsing a string as a canonical UUID yields: `Some` of the
/// 128-bit value for a well-formed UUID string, `None` otherwise.
pub uninterp spec fn parsed_uuid(s: Seq<char>) -> Option<u128>;

/// The canonical hyphenated text form of the UUID with 128-bit value `u`.
pub uninterp spec fn uuid_str(u: u128) -> Seq<char>;

/// Relies on uuid::Uuid::parse_str: the result is a function of the input
/// string alone.
#[verifier::external_body]
pub fn parse_uuid(s: &str) -> (r: Option<u128>)
    ensures
        r == parsed_uuid(s@),
{
    uuid::Uuid::parse_str(s).ok().map(|u| u.as_u128())
}

/// Relies on uuid::Uuid's Display impl: the canonical hyphenated form is a
/// function of the value alone, and uuid::Uuid::parse_str accepts it and
/// returns the same value.
#[verifier::external_body]
pub fn uuid_to_string(u: u128) -> (r: String)
    ensures
        r@ == uuid_str(u),
        parsed_uuid(r@) == Some(u),
{
    uuid::Uuid::from_u128(u).to_string()
}

/// Relies on uuid::Uuid::new_v4: the result is random, so nothing is
/// promised of it.
#[verifier::external_body]
pub fn fresh_uuid() -> (r: u128)
{
    uuid::Uuid::new_v4().as_u128()
}

/// Relies on chrono::Utc::now: the result is the clock's reading, so
/// nothing is promised of it.
#[verifier::external_body]
pub fn now_millis() -> (r: i64)
{
    chrono::Utc::now().timestamp_millis()
}

} // verus!
