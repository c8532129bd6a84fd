use vstd::prelude::*;

verus! {

/// Identity of a surface: an opaque handle compared only for equality.
///
/// The value is the 128-bit form of a version-4 UUID.
#[derive(Clone, Copy, Debug, PartialEq, Eq, Structural)]
pub struct SurfaceId {
    pub value: u128,
}

/// Holds of every value produced by a random (version 4) UUID: the version
/// nibble is 4 and the variant bits are `10`.
pub open spec fn is_random_uuid(v: u128) -> bool {
    (v >> 76u128) & 0xfu128 == 4 && (v >> 62u128) & 3u128 == 2
}

/// Relies on `uuid::Uuid::new_v4` and `uuid::Uuid::as_u128`: the random value
/// has its version nibble set to 4 and its variant bits set to `10`
/// (uuid's `new_v4` masks them in); `as_u128` reads the 16 bytes big-endian,
/// which is the inverse of how `new_v4` stored them. The call panics only when
/// the operating system offers no random bytes.
#[verifier::external_body]
fn random_uuid_value() -> (r: u128)
    ensures
        is_random_uuid(r),
{
    uuid::Uuid::new_v4().as_u128()
}

impl SurfaceId {
    /// A fresh identity, distinct from every other with overwhelming probability.
    pub fn new_random() -> (r: SurfaceId)
        ensures
            is_random_uuid(r.value),
    {
        SurfaceId { value: random_uuid_value() }
    }

    /// Wraps an existing 128-bit value.
    pub fn from_u128(value: u128) -> (r: SurfaceId)
        ensures
            r.value == value,
    {
        SurfaceId { value }
    }
}

} // verus!
