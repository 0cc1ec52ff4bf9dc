//! Fresh identities for graph roots and sources.

use vstd::prelude::*;

verus! {

/// Relies on `uuid::Uuid::new_v4` (a freshly drawn random version-4
/// identifier, from the operating system's randomness) and
/// `uuid::Uuid::as_u128` (its 128-bit value). The value is random, so
/// nothing is assumed of it. Note that `new_v4` aborts the process if the
/// operating system's randomness source fails: an environmental failure,
/// like memory exhaustion, that no caller can rule out by argument.
#[verifier::external_body]
pub(crate) fn fresh_id() -> u128 {
    uuid::Uuid::new_v4().as_u128()
}

} // verus!
