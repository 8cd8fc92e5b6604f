//! Node and bond identifiers.
//!
//! An identifier is a UUID held as its 128-bit big-endian value, the value
//! `uuid::Uuid::as_u128` gives.  The nil UUID is the value zero; a freshly
//! drawn identifier is a random (version 4, RFC 4122 variant) UUID.

use vstd::prelude::*;
use uuid::Uuid;

verus! {

/// The identifier that means "no identifier yet".
pub open spec fn spec_nil_id() -> u128 {
    0
}

/// `id` has the layout of a random UUID: version nibble 4 and the
/// RFC 4122 variant bits `10`.
pub open spec fn is_random_id(id: u128) -> bool {
    &&& (id >> 76u128) & 0xfu128 == 4u128
    &&& (id >> 62u128) & 0x3u128 == 2u128
}

/// A random identifier is never the nil identifier.
pub proof fn lemma_random_id_not_nil(id: u128)
    requires
        is_random_id(id),
    ensures
        id != spec_nil_id(),
{
    assert(((id >> 76u128) & 0xfu128 == 4u128) ==> id != 0u128) by (bit_vector);
}

/// The nil identifier, as `uuid::Uuid::default()` gives it.
///
/// Trusted: `Uuid::default` returns `Uuid::nil()`, whose sixteen bytes are
/// all zero, so its `as_u128` value is zero.
#[verifier::external_body]
pub fn nil_id() -> (id: u128)
    ensures
        id == spec_nil_id(),
{
    Uuid::default().as_u128()
}

/// Draws a fresh random identifier with `uuid::Uuid::new_v4()`.
///
/// Trusted: `new_v4` takes 128 random bits, clears the version and variant
/// bits and sets them to version 4 and variant `10`; `as_u128` gives back
/// that value.  Which value comes out is chance, so nothing else is stated.
/// The call panics only when the operating system cannot supply random
/// bytes, which no argument of this function can cause or rule out.
#[verifier::external_body]
pub fn new_random_id() -> (id: u128)
    ensures
        is_random_id(id),
{
    Uuid::new_v4().as_u128()
}

} // verus!
