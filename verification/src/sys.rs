//! Ambient values the store needs from its surroundings: the current moment
//! and fresh identifiers. Both are inherently nondeterministic, so their
//! contracts state only what holds of every outcome; every function of the
//! store that consumes such a value is verified for all values it could take.

use vstd::prelude::*;

verus! {

/// The moment of the call as an RFC 3339 / ISO 8601 timestamp string.
///
/// Relies on chrono's `Utc::now` and `DateTime::to_rfc3339`; the result
/// depends on the clock, so nothing is claimed of it beyond being non-empty.
#[verifier::external_body]
pub fn now_rfc3339() -> (r: String)
    ensures
        r@.len() > 0,
{
    chrono::Utc::now().to_rfc3339()
}

/// A fresh random identifier in the 36-character hyphenated form.
///
/// Relies on uuid's `Uuid::new_v4` and its `Display` impl, which renders
/// every identifier as 36 ASCII characters (8-4-4-4-12 hexadecimal digits
/// with hyphens); the value itself is random, so only the shape is claimed.
#[verifier::external_body]
pub fn generate_uuid() -> (r: String)
    ensures
        r@.len() == 36,
{
    uuid::Uuid::new_v4().to_string()
}

} // verus!
