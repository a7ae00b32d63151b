//! A small record-management core: customer and interaction records held in
//! durable ordered maps, keyed by identifiers minted from one shared counter,
//! encoded through a bounded byte codec into isolated regions of a single
//! durable backing store.

pub mod chunks;
pub mod codec;
pub mod dmap;
pub mod laws;
pub mod persist;
pub mod records;
pub mod region;
pub mod store;

use vstd::prelude::*;

verus! {

/// Hard ceiling on the encoded size of one stored record, in bytes.
pub const MAX_RECORD_BYTES: u64 = 1024;

} // verus!
