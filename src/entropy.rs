//! The two random inputs of an insertion: a fresh node identifier and the
//! draw that decides the node's top layer.
use vstd::prelude::*;

verus! {

/// Relies on `uuid::Uuid::new_v4` and `Uuid::as_u128`: a random version-4
/// UUID read as a 128-bit integer, so its version nibble is 4 and its variant
/// bits are `10`.
#[verifier::external_body]
pub(crate) fn fresh_node_id() -> (r: u128)
    ensures
        (r >> 76u128) & 0xFu128 == 4,
        (r >> 62u128) & 0x3u128 == 2,
{
    uuid::Uuid::new_v4().as_u128()
}

/// Relies on `rand::random::<u32>`: a uniformly drawn `u32` from the thread-local generator.
#[verifier::external_body]
pub(crate) fn level_draw() -> (r: u32) {
    rand::random::<u32>()
}

} // verus!
