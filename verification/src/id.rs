//! Identifiers of agents and resources.

use vstd::prelude::*;

verus! {

/// Identifier of an agent or of a resource: the 128-bit value of a UUID.
///
/// Its byte form is the UUID's 16 bytes, most significant byte first.
#[derive(Clone, Copy, Debug, PartialEq, Eq, Structural)]
pub struct EntityId {
    pub value: u128,
}

/// The 16 bytes of a 128-bit value, most significant first.
pub open spec fn u128_be_bytes(v: u128) -> Seq<u8> {
    Seq::new(16, |i: int| ((v >> (((15 - i) * 8) as u128)) & 0xff) as u8)
}

/// Calls `uuid::Uuid::from_u128(value).as_bytes()`.
///
/// The uuid crate documents `from_u128` as `Uuid::from_bytes(value.to_be_bytes())`
/// and `as_bytes` as the stored bytes, so the result is the big-endian form.
#[verifier::external_body]
fn uuid_bytes_of(value: u128) -> (bytes: [u8; 16])
    ensures
        bytes@ == u128_be_bytes(value),
{
    *uuid::Uuid::from_u128(value).as_bytes()
}

impl EntityId {
    /// Builds an identifier from its 128-bit value.
    pub fn new(value: u128) -> (id: EntityId)
        ensures
            id.value == value,
    {
        EntityId { value }
    }

    /// The byte form of the identifier, as the UUID crate lays it out.
    pub open spec fn spec_bytes(self) -> Seq<u8> {
        u128_be_bytes(self.value)
    }

    /// The identifier's 16 bytes, most significant first.
    pub fn as_bytes(&self) -> (bytes: [u8; 16])
        ensures
            bytes@ == self.spec_bytes(),
    {
        uuid_bytes_of(self.value)
    }
}

} // verus!
