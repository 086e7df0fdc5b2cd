//! Declarations of the outside types that the dispatch loop carries.
//! Both are opaque here: the loop moves them and never looks inside.
use vstd::prelude::*;

verus! {

/// A decoded peer wire message of the BOLT catalog (`lnp::p2p::bolt::Messages`).
#[verifier::external_type_specification]
#[verifier::external_body]
pub struct ExMessages(lnp::p2p::bolt::Messages);

/// A presentation-layer failure reported by a receive handle
/// (`internet2::presentation::Error`).
#[verifier::external_type_specification]
#[verifier::external_body]
pub struct ExPresentationError(internet2::presentation::Error);

} // verus!
