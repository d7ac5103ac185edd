//! Node identifiers.
//!
//! Every node carries a 128-bit identifier assigned at construction. The
//! generator is an external collaborator; the scene graph only ever compares
//! identifiers.

use vstd::prelude::*;

verus! {

/// Relies on `uuid::Uuid::new_v4` (and `Uuid::as_u128`) for a freshly
/// generated version-4 UUID as a plain 128-bit value. The result is random,
/// so nothing is promised of it.
#[verifier::external_body]
pub(crate) fn fresh_id() -> u128 {
    uuid::Uuid::new_v4().as_u128()
}

} // verus!
