//! A "one-way" generational slot map.
//!
//! Values are stored in fixed-capacity chunks and addressed through stable
//! keys that carry a coordinate (chunk index plus offset within the chunk)
//! and a generation counter.  Removing a value does not release its cell:
//! the cell's generation is advanced (odd generations mark vacant cells) and
//! the cell is threaded onto an intrusive LIFO free list, so a later insert
//! reuses it.  A key stays valid exactly until its cell is vacated; a stale
//! key is rejected by every lookup.

use vstd::prelude::*;

pub use slot_map::SlotMap;
pub use slot_map::Slots;
pub use slot_map_key::BasicKey;
pub use slot_map_key::SlotMapKey;
pub use slot_map_key_data::SlotMapKeyData;
pub use slot_map_key_data::MAX_GENERATION;
pub use slot_map_key_data::MAX_INDEX_IN_CHUNK;

pub mod laws;
pub mod model;
mod slot_map;
mod slot_map_key;
mod slot_map_key_data;

verus! {

/// Number of cells in one storage chunk.  Must be a power of two; the number
/// of bits it occupies in a packed key is `INDEX_IN_CHUNK_BITS`.
pub const SLOT_MAP_CHUNK_SIZE: usize = 256;

/// The chunk size as a mathematical integer, for use in specifications.
#[verifier::inline]
pub open spec fn chunk_size() -> int {
    SLOT_MAP_CHUNK_SIZE as int
}

} // verus!


