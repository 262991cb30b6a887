//! Revision identity.
//!
//! A `RevID` is an opaque 128-bit value used both as a node identity in the
//! revision graph and as a storage key. The distinguished empty identifier
//! (value zero) denotes "no parent" / "no revision yet"; it is never the
//! identifier of a stored revision.

use vstd::prelude::*;

use crate::errors::ArcError;

verus! {

/// An opaque 128-bit revision identifier. The zero value is the empty
/// sentinel: it names no revision and marks a missing parent link.
#[derive(Clone, Copy, Debug, PartialEq, Eq, Structural, Hash)]
pub struct RevID {
    value: u128,
}

impl View for RevID {
    type V = u128;

    closed spec fn view(&self) -> u128 {
        self.value
    }
}

impl RevID {
    /// True exactly when this is the empty sentinel.
    pub fn is_empty(&self) -> (r: bool)
        ensures
            r == (self@ == 0),
    {
        self.value == 0
    }

    /// Wraps a raw 128-bit value.
    pub fn from_value(v: u128) -> (r: RevID)
        ensures
            r@ == v,
    {
        RevID { value: v }
    }

    /// The raw 128-bit value.
    pub fn value(&self) -> (r: u128)
        ensures
            r == self@,
    {
        self.value
    }

    /// The canonical text of this identifier: 32 lowercase hexadecimal
    /// digits.
    pub fn to_text(&self) -> (r: String)
        ensures
            r@ == uuid_simple(self@),
            r@.len() == 32,
    {
        uuid_simple_text(self.value)
    }
}

/// The empty sentinel identifier.
pub fn empty() -> (r: RevID)
    ensures
        r@ == 0,
{
    RevID { value: 0 }
}

/// Generates a new revision identifier from 128-bit randomness. The result
/// is never the empty sentinel; uniqueness against a given catalog is the
/// caller's concern (see `Store::fresh_id`).
pub fn new() -> (r: RevID)
    ensures
        r@ != 0,
        r@ != u128::MAX,
{
    RevID { value: uuid_v4_value() }
}

/// Parses an identifier from text; fails with `FormatError` on malformed
/// input. Accepts the formats that the identifier generator's ecosystem
/// writes (simple, hyphenated, and related forms).
pub fn parse(s: &String) -> (r: Result<RevID, ArcError>)
    ensures
        r is Ok <==> uuid_of(s@) is Some,
        r is Ok ==> Some(r->Ok_0@) == uuid_of(s@),
        r is Err ==> r->Err_0 == ArcError::FormatError,
{
    match uuid_parse_value(s.as_str()) {
        Ok(v) => Ok(RevID { value: v }),
        Err(_) => Err(ArcError::FormatError),
    }
}

/// The value that identifier parsing assigns to a text, if any: the
/// 128-bit value of a well-formed identifier string, `None` for malformed
/// text. A function of the text alone.
pub uninterp spec fn uuid_of(s: Seq<char>) -> Option<u128>;

/// The canonical lowercase 32-digit hexadecimal rendering of a 128-bit
/// value. A function of the value alone.
pub uninterp spec fn uuid_simple(v: u128) -> Seq<char>;

/// The error type of `uuid::Uuid::parse_str`.
#[verifier::external_type_specification]
#[verifier::external_body]
pub struct ExUuidError(uuid::Error);

/// Relies on `uuid::Uuid::new_v4` and `Uuid::as_u128`: a random
/// version-4 identifier. Its value always carries the fixed version and
/// variant bits (`new_v4` sets them by mask and or), so it is neither all
/// zeros nor all ones.
#[verifier::external_body]
fn uuid_v4_value() -> (r: u128)
    ensures
        r != 0,
        r != u128::MAX,
{
    uuid::Uuid::new_v4().as_u128()
}

/// Relies on `uuid::Uuid::parse_str` and `Uuid::as_u128`: parsing
/// succeeds exactly on well-formed identifier text, and the value parsed
/// from a text depends on that text alone.
#[verifier::external_body]
fn uuid_parse_value(s: &str) -> (r: Result<u128, uuid::Error>)
    ensures
        r is Ok <==> uuid_of(s@) is Some,
        r is Ok ==> Some(r->Ok_0) == uuid_of(s@),
{
    uuid::Uuid::parse_str(s).map(|u| u.as_u128())
}

/// Relies on `uuid::Uuid::from_u128` and the `Simple` display format: the
/// simple format of a value is its 32-digit lowercase hexadecimal
/// rendering, a function of the value alone.
#[verifier::external_body]
fn uuid_simple_text(v: u128) -> (r: String)
    ensures
        r@ == uuid_simple(v),
        r@.len() == 32,
{
    uuid::Uuid::from_u128(v).as_simple().to_string()
}

} // verus!
