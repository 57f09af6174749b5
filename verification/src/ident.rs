//! Identifier generation for orders, trades and events.
//!
//! Identifiers are carried as 128-bit integers; the UUID crate supplies the
//! randomness and the canonical text form.

use vstd::prelude::*;

verus! {

/// Relies on `uuid::Uuid::new_v4` and `Uuid::as_u128`: a freshly generated
/// random version-4 UUID as its 128-bit value. The value is random; nothing
/// is promised of it.
#[verifier::external_body]
pub fn fresh_id() -> u128 {
    uuid::Uuid::new_v4().as_u128()
}

/// Relies on `uuid::Uuid::from_u128` and the `Display` form of `Uuid`: the
/// canonical hyphenated text of the identifier, which is always 36
/// characters.
#[verifier::external_body]
pub fn id_text(id: u128) -> (r: String)
    ensures
        r@.len() == 36,
{
    uuid::Uuid::from_u128(id).to_string()
}

} // verus!
