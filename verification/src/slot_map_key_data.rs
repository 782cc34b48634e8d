//! The coordinate-plus-generation triple that identifies one cell of the map,
//! and its packed 64-bit form.

use vstd::prelude::*;

verus! {

/// Bits of a packed key that hold the index within a chunk.
/// `SLOT_MAP_CHUNK_SIZE` must equal two to this power.
pub const INDEX_IN_CHUNK_BITS: u8 = 8;

/// Bits of a packed key that hold the chunk index.
pub const CHUNK_INDEX_BITS: u8 = 32;

/// Bits of a packed key that hold the generation.  The three widths sum
/// to the 64 bits of the packed word.
pub const GENERATION_BITS: u8 = 24;

pub const INDEX_IN_CHUNK_MASK: u64 = 0xFF;

pub const CHUNK_INDEX_SHIFT: u8 = 8;

pub const CHUNK_INDEX_MASK: u64 = 0xFFFF_FFFFu64 << 8;

pub const GENERATION_SHIFT: u8 = 40;

pub const GENERATION_MASK: u64 = 0xFF_FFFFu64 << 40;

/// Largest index a cell can have within its chunk.
pub const MAX_INDEX_IN_CHUNK: u16 = 255;

/// Largest generation value; advancing past it wraps to zero.
pub const MAX_GENERATION: u32 = 0xFF_FFFF;

/// All the information that identifies one slot of the map: where the cell
/// sits (chunk index and index within the chunk) and how many times the cell
/// has changed occupancy (the generation; even means occupied, odd vacant).
#[derive(Debug, Hash, Clone, Copy, PartialEq, Eq, Structural)]
pub struct SlotMapKeyData {
    /// Index of this slot in the chunk containing it.
    pub index_in_chunk: u16,
    /// Index of the chunk containing this slot.
    pub chunk_index: u32,
    /// Number of times this slot has changed occupancy.  Incrementing it is
    /// all it takes to invalidate every key that points at the slot.
    pub generation: u32,
}

impl SlotMapKeyData {
    /// Position of the addressed cell in the flattened sequence of all cells:
    /// chunk index times chunk size, plus the index within the chunk.
    pub open spec fn index_of(self) -> int {
        self.chunk_index * crate::chunk_size() + self.index_in_chunk
    }

    /// The index within the chunk actually fits inside one chunk.
    pub open spec fn coord_ok(self) -> bool {
        self.index_in_chunk < crate::chunk_size()
    }

    /// The generation fits the bits reserved for it in the packed form.
    pub open spec fn gen_ok(self) -> bool {
        self.generation <= MAX_GENERATION
    }

    /// Both fields fit their configured bit widths (the chunk index always
    /// does, filling its 32 bits exactly).
    pub open spec fn wf(self) -> bool {
        self.coord_ok() && self.gen_ok()
    }

    /// An even generation marks an occupied cell.
    pub open spec fn spec_is_filled(self) -> bool {
        self.generation % 2 == 0
    }

    /// The generation after one advance: one more, wrapping to zero past
    /// `MAX_GENERATION`.
    pub open spec fn spec_wrap_inc(generation: u32) -> u32 {
        if generation < MAX_GENERATION {
            (generation + 1) as u32
        } else {
            0u32
        }
    }

    /// The coordinates after one advance: the next index within the chunk,
    /// or the first index of the next chunk.
    pub open spec fn spec_increment_coordinates(self) -> SlotMapKeyData {
        if self.index_in_chunk == MAX_INDEX_IN_CHUNK {
            SlotMapKeyData {
                index_in_chunk: 0,
                chunk_index: (self.chunk_index + 1) as u32,
                generation: self.generation,
            }
        } else {
            SlotMapKeyData {
                index_in_chunk: (self.index_in_chunk + 1) as u16,
                chunk_index: self.chunk_index,
                generation: self.generation,
            }
        }
    }

    /// A copy of `self` whose coordinate fields are replaced by those of
    /// `coords`, keeping the generation of `self`.
    pub open spec fn spec_with_coords_of(self, coords: SlotMapKeyData) -> SlotMapKeyData {
        SlotMapKeyData {
            index_in_chunk: coords.index_in_chunk,
            chunk_index: coords.chunk_index,
            generation: self.generation,
        }
    }

    /// Advance the generation by one, wrapping to zero past `MAX_GENERATION`.
    pub(crate) fn increment_generation(&mut self)
        requires
            old(self).gen_ok(),
        ensures
            final(self).generation == SlotMapKeyData::spec_wrap_inc(old(self).generation),
            final(self).index_in_chunk == old(self).index_in_chunk,
            final(self).chunk_index == old(self).chunk_index,
            final(self).gen_ok(),
    {
        if self.generation < MAX_GENERATION {
            self.generation = self.generation + 1;
        } else {
            self.generation = 0;
        }
    }

    /// Exchange the coordinate fields (not the generations) of two keys.
    /// This single step is what threads vacated cells onto the free list.
    pub(crate) fn swap_coordinates(&mut self, other: &mut SlotMapKeyData)
        ensures
            *final(self) == old(self).spec_with_coords_of(*old(other)),
            *final(other) == old(other).spec_with_coords_of(*old(self)),
    {
        let swap_chunk_index = self.chunk_index;
        self.chunk_index = other.chunk_index;
        other.chunk_index = swap_chunk_index;

        let swap_index_in_chunk = self.index_in_chunk;
        self.index_in_chunk = other.index_in_chunk;
        other.index_in_chunk = swap_index_in_chunk;
    }

    /// Advance the coordinates one cell.  When the index within the chunk
    /// wraps, move to the start of the next chunk and report the wrap.
    pub(crate) fn increment_coordinates(&mut self) -> (wrapped: bool)
        requires
            old(self).coord_ok(),
            old(self).chunk_index < u32::MAX,
        ensures
            *final(self) == old(self).spec_increment_coordinates(),
            final(self).coord_ok(),
            wrapped == (old(self).index_in_chunk == MAX_INDEX_IN_CHUNK),
            final(self).index_of() == old(self).index_of() + 1,
    {
        if self.index_in_chunk == MAX_INDEX_IN_CHUNK {
            self.index_in_chunk = 0;
            self.chunk_index = self.chunk_index + 1;
            true
        } else {
            self.index_in_chunk = self.index_in_chunk + 1;
            false
        }
    }

    /// Whether the slot this key describes is occupied (generation even).
    pub(crate) fn is_filled(&self) -> (r: bool)
        ensures
            r == self.spec_is_filled(),
    {
        self.generation % 2 == 0
    }
}

/// The triple packed into one 64-bit word: index within the chunk in the low
/// bits, then the chunk index, then the generation.
pub open spec fn spec_to_u64(key: SlotMapKeyData) -> u64 {
    (((key.index_in_chunk as u64) & INDEX_IN_CHUNK_MASK) + (((key.chunk_index as u64)
        << CHUNK_INDEX_SHIFT) & CHUNK_INDEX_MASK) + (((key.generation as u64) << GENERATION_SHIFT)
        & GENERATION_MASK)) as u64
}

/// The triple read back out of a packed 64-bit word.
pub open spec fn spec_from_u64(input: u64) -> SlotMapKeyData {
    SlotMapKeyData {
        index_in_chunk: (input & INDEX_IN_CHUNK_MASK) as u16,
        chunk_index: ((input & CHUNK_INDEX_MASK) >> CHUNK_INDEX_SHIFT) as u32,
        generation: ((input & GENERATION_MASK) >> GENERATION_SHIFT) as u32,
    }
}

impl From<u64> for SlotMapKeyData {
    /// Unpack a key from its 64-bit form.  The result always satisfies
    /// `wf()`: each field is masked to its configured width.
    fn from(input: u64) -> (r: SlotMapKeyData)
        ensures
            r == spec_from_u64(input),
            r.wf(),
    {
        proof {
            assert((input & INDEX_IN_CHUNK_MASK) < 256 && ((input & CHUNK_INDEX_MASK)
                >> CHUNK_INDEX_SHIFT) <= 0xFFFF_FFFF && ((input & GENERATION_MASK)
                >> GENERATION_SHIFT) <= 0xFF_FFFF) by (bit_vector);
        }
        SlotMapKeyData {
            index_in_chunk: (input & INDEX_IN_CHUNK_MASK) as u16,
            chunk_index: ((input & CHUNK_INDEX_MASK) >> CHUNK_INDEX_SHIFT) as u32,
            generation: ((input & GENERATION_MASK) >> GENERATION_SHIFT) as u32,
        }
    }
}

impl vstd::std_specs::convert::FromSpecImpl<u64> for SlotMapKeyData {
    open spec fn obeys_from_spec() -> bool {
        true
    }

    open spec fn from_spec(v: u64) -> SlotMapKeyData {
        spec_from_u64(v)
    }
}

impl From<SlotMapKeyData> for u64 {
    /// Pack a key into its 64-bit form.
    fn from(input: SlotMapKeyData) -> (r: u64)
        ensures
            r == spec_to_u64(input),
    {
        let low = (input.index_in_chunk as u64) & INDEX_IN_CHUNK_MASK;
        let mid = ((input.chunk_index as u64) << CHUNK_INDEX_SHIFT) & CHUNK_INDEX_MASK;
        let high = ((input.generation as u64) << GENERATION_SHIFT) & GENERATION_MASK;
        proof {
            let i = input.index_in_chunk as u64;
            let c = input.chunk_index as u64;
            let g = input.generation as u64;
            assert((i & INDEX_IN_CHUNK_MASK) + ((c << CHUNK_INDEX_SHIFT) & CHUNK_INDEX_MASK) + ((g
                << GENERATION_SHIFT) & GENERATION_MASK) <= u64::MAX) by (bit_vector);
        }
        low + mid + high
    }
}

impl vstd::std_specs::convert::FromSpecImpl<SlotMapKeyData> for u64 {
    open spec fn obeys_from_spec() -> bool {
        true
    }

    open spec fn from_spec(v: SlotMapKeyData) -> u64 {
        spec_to_u64(v)
    }
}

impl Default for SlotMapKeyData {
    /// The key of the very first cell: coordinates zero at generation zero.
    fn default() -> (r: SlotMapKeyData)
        ensures
            r.index_in_chunk == 0,
            r.chunk_index == 0,
            r.generation == 0,
    {
        SlotMapKeyData { index_in_chunk: 0, chunk_index: 0, generation: 0 }
    }
}

/// Packing then unpacking reproduces any triple whose fields fit their
/// configured bit widths.
pub proof fn lemma_key_data_round_trip(key: SlotMapKeyData)
    requires
        key.wf(),
    ensures
        spec_from_u64(spec_to_u64(key)) == key,
{
    let i = key.index_in_chunk as u64;
    let c = key.chunk_index as u64;
    let g = key.generation as u64;
    let packed = spec_to_u64(key);
    assert(packed == ((i & INDEX_IN_CHUNK_MASK) + ((c << CHUNK_INDEX_SHIFT) & CHUNK_INDEX_MASK) + ((
    g << GENERATION_SHIFT) & GENERATION_MASK)) as u64);
    assert((packed & INDEX_IN_CHUNK_MASK) == i && ((packed & CHUNK_INDEX_MASK)
        >> CHUNK_INDEX_SHIFT) == c && ((packed & GENERATION_MASK) >> GENERATION_SHIFT) == g)
        by (bit_vector)
        requires
            packed == ((i & INDEX_IN_CHUNK_MASK) + ((c << CHUNK_INDEX_SHIFT) & CHUNK_INDEX_MASK) + (
            (g << GENERATION_SHIFT) & GENERATION_MASK)) as u64,
            i < 256,
            c <= 0xFFFF_FFFF,
            g <= 0xFF_FFFF,
    ;
    assert(spec_from_u64(packed).index_in_chunk == key.index_in_chunk);
    assert(spec_from_u64(packed).chunk_index == key.chunk_index);
    assert(spec_from_u64(packed).generation == key.generation);
}

/// Unpacking then packing reproduces any 64-bit word: the three fields
/// together cover all 64 bits.
pub proof fn lemma_u64_round_trip(v: u64)
    ensures
        spec_to_u64(spec_from_u64(v)) == v,
{
    let i = v & INDEX_IN_CHUNK_MASK;
    let c = (v & CHUNK_INDEX_MASK) >> CHUNK_INDEX_SHIFT;
    let g = (v & GENERATION_MASK) >> GENERATION_SHIFT;
    assert(spec_from_u64(v).index_in_chunk as u64 == i && spec_from_u64(v).chunk_index as u64 == c
        && spec_from_u64(v).generation as u64 == g) by (bit_vector)
        requires
            i == v & INDEX_IN_CHUNK_MASK,
            c == (v & CHUNK_INDEX_MASK) >> CHUNK_INDEX_SHIFT,
            g == (v & GENERATION_MASK) >> GENERATION_SHIFT,
    ;
    assert(((i & INDEX_IN_CHUNK_MASK) + ((c << CHUNK_INDEX_SHIFT) & CHUNK_INDEX_MASK) + ((g
        << GENERATION_SHIFT) & GENERATION_MASK)) as u64 == v) by (bit_vector)
        requires
            i == v & INDEX_IN_CHUNK_MASK,
            c == (v & CHUNK_INDEX_MASK) >> CHUNK_INDEX_SHIFT,
            g == (v & GENERATION_MASK) >> GENERATION_SHIFT,
    ;
}

/// The configured bit widths are mutually consistent: they sum to 64, the
/// chunk size is the power of two named by `INDEX_IN_CHUNK_BITS`, and the
/// two maxima are the largest values of their widths.
pub proof fn lemma_configuration_consistent()
    ensures
        INDEX_IN_CHUNK_BITS + CHUNK_INDEX_BITS + GENERATION_BITS == 64,
        crate::chunk_size() == 1u64 << INDEX_IN_CHUNK_BITS,
        MAX_INDEX_IN_CHUNK as int == crate::chunk_size() - 1,
        MAX_GENERATION as u64 == (1u64 << GENERATION_BITS) - 1,
{
    assert(1u64 << 8 == 256 && (1u64 << 24) - 1 == 0xFF_FFFF) by (bit_vector);
}

} // verus!
