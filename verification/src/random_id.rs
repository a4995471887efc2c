//! Message ids for producers that did not choose one.

use vstd::prelude::*;

verus! {

/// `uuid::Uuid::now_v7` followed by `Uuid::to_u128_le`: a fresh
/// time-ordered identifier as a 128-bit number. Its value depends on the
/// clock and on random bits, so nothing is said of it but that it is not
/// zero: every such identifier carries its version and variant bits.
#[verifier::external_body]
pub(crate) fn get_uuid() -> (id: u128)
    ensures
        id != 0,
{
    uuid::Uuid::now_v7().to_u128_le()
}

/// The id that a message goes by: its own when it has one, the fresh one
/// when its own is zero.
pub fn resolve_id(own: u128, fresh: u128) -> (id: u128)
    ensures
        id == if own == 0 {
            fresh
        } else {
            own
        },
{
    if own == 0 {
        fresh
    } else {
        own
    }
}

} // verus!
