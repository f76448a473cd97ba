//! Identity metadata carried by a mesh: a unique identifier and a name.

use vstd::prelude::*;

verus! {

#[verifier::external_type_specification]
#[verifier::external_body]
pub struct ExUuid(uuid::Uuid);

/// Relies on `uuid::Uuid::new_v4`: a freshly drawn random identifier.
/// Its value depends on chance, so nothing is stated of it.
#[verifier::external_body]
pub(crate) fn new_guid() -> (r: uuid::Uuid) {
    uuid::Uuid::new_v4()
}

} // verus!
