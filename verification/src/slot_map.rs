//! The chunked cell storage and the slot map built on top of it.

use crate::model::count_filled;
use crate::model::filled_indices;
use crate::model::lemma_count_all_filled;
use crate::model::lemma_count_filled_le_len;
use crate::model::lemma_count_is_filled_indices_len;
use crate::model::lemma_count_filled_push;
use crate::model::lemma_count_filled_update;
use crate::model::empty_model;
use crate::model::lemma_count_filled_pos;
use crate::model::lemma_count_none_filled;
use crate::model::lemma_reverse_push;
use crate::model::lemma_empty_model_wf;
use crate::model::lemma_coord_unique;
use crate::model::lemma_count_filled_same_keys;
use crate::model::lemma_filled_indices_take;
use crate::model::lemma_wf_model_same_keys_other_type;
use crate::model::lemma_flat_coord;
use crate::model::lemma_insert_preserves_wf;
use crate::model::lemma_remove_preserves_wf;
use crate::model::lemma_reuses_iff_free_list;
use crate::model::lemma_slot_index_canonical;
use crate::model::lemma_slot_index_in_range;
use crate::model::lemma_slot_index_sentinel;
use crate::model::max_capacity;
use crate::model::slot_index_for_len;
use crate::model::spec_get;
use crate::model::spec_insert_key;
use crate::model::spec_insert_model;
use crate::model::spec_remove_hits;
use crate::model::lemma_remove_with_wf;
use crate::model::lemma_value_updated_wf;
use crate::model::spec_remove_model_with;
use crate::model::spec_value_updated;
use crate::model::spec_reuses;
use crate::model::wf_model;
use crate::model::MapModel;
use crate::slot_map_key::SlotMapKey;
use crate::slot_map_key_data::SlotMapKeyData;
use crate::SLOT_MAP_CHUNK_SIZE;
use vstd::arithmetic::div_mod::lemma_fundamental_div_mod;
use vstd::arithmetic::div_mod::lemma_fundamental_div_mod_converse;
use vstd::prelude::*;

verus! {

broadcast use crate::model::lemma_seq_add_update_left, crate::model::lemma_seq_add_update_right, crate::model::lemma_seq_add_push;

/// The cell storage: all cells of sealed chunks, chunk after chunk, followed
/// by the open chunk, filled up to its cursor.  Sealed cells are never
/// removed; the open chunk grows cell by cell and moves into the sealed
/// region exactly when it reaches the chunk size.
pub struct Slots<T> {
    /// Cells of all sealed chunks, in coordinate order.  The length is
    /// always a multiple of the chunk size.
    sealed_cells: Vec<(SlotMapKeyData, T)>,
    /// The open chunk: its length is the fill cursor.
    current_chunk: Vec<(SlotMapKeyData, T)>,
}

impl<T> Slots<T> {
    /// All initialized cells in flat coordinate order: the cell at chunk
    /// `c`, offset `i` sits at position `c * chunk_size() + i`.
    pub closed spec fn cells(self) -> Seq<(SlotMapKeyData, T)> {
        self.sealed_cells@ + self.current_chunk@
    }

    /// Number of cells in sealed chunks.
    pub closed spec fn sealed_len(self) -> int {
        self.sealed_cells@.len() as int
    }

    /// The fill cursor of the open chunk.
    pub closed spec fn open_len(self) -> int {
        self.current_chunk@.len() as int
    }

    /// Number of initialized cells altogether.
    pub open spec fn total_len(self) -> int {
        self.cells().len() as int
    }

    /// Number of sealed chunks.
    pub open spec fn spec_sealed_count(self) -> int {
        self.sealed_len() / crate::chunk_size()
    }

    /// The sealed region always holds whole chunks.
    pub open spec fn wf(self) -> bool {
        self.sealed_len() % crate::chunk_size() == 0
    }

    /// The sealed region splits into whole chunks, so a storage with a short
    /// open chunk has as many sealed chunks as fit its total cell count.
    pub proof fn lemma_structure(self)
        requires
            self.wf(),
            self.open_len() < crate::chunk_size(),
        ensures
            self.total_len() / crate::chunk_size() == self.spec_sealed_count(),
            self.total_len() % crate::chunk_size() == self.open_len(),
            self.sealed_len() == self.spec_sealed_count() * crate::chunk_size(),
    {
        lemma_fundamental_div_mod(self.sealed_len(), crate::chunk_size());
        lemma_flat_coord(self.spec_sealed_count(), self.open_len());
    }

    /// A fresh, empty storage.
    pub fn new() -> (r: Slots<T>)
        ensures
            r.wf(),
            r.cells() == Seq::<(SlotMapKeyData, T)>::empty(),
            r.open_len() == 0,
            r.sealed_len() == 0,
    {
        let r = Slots { sealed_cells: Vec::new(), current_chunk: Vec::new() };
        proof {
            assert(r.cells() =~= Seq::<(SlotMapKeyData, T)>::empty());
        }
        r
    }

    /// Read-only access to the cell a key's coordinates resolve to: within a
    /// sealed chunk when the chunk index names one, otherwise in the open
    /// chunk below the cursor.
    pub fn get_slot<'a>(&'a self, key: &SlotMapKeyData) -> (r: Option<&'a (SlotMapKeyData, T)>)
        requires
            self.wf(),
            self.open_len() < crate::chunk_size(),
        ensures
            r.is_some() == slot_index_for_len(self.total_len(), *key).is_some(),
            r.is_some() ==> *r.unwrap() == self.cells()[slot_index_for_len(
                self.total_len(),
                *key,
            ).unwrap()],
    {
        proof {
            self.lemma_structure();
        }
        let sealed_count = self.sealed_cells.len() / SLOT_MAP_CHUNK_SIZE;
        let ci = key.chunk_index as usize;
        let ii = key.index_in_chunk as usize;
        if ci < sealed_count {
            if ii < SLOT_MAP_CHUNK_SIZE {
                proof {
                    assert((ci + 1) * crate::chunk_size() <= sealed_count * crate::chunk_size())
                        by (nonlinear_arith)
                        requires
                            ci + 1 <= sealed_count,
                            crate::chunk_size() > 0,
                    ;
                }
                Some(&self.sealed_cells[ci * SLOT_MAP_CHUNK_SIZE + ii])
            } else {
                None
            }
        } else {
            if ii < self.current_chunk.len() {
                Some(&self.current_chunk[ii])
            } else {
                None
            }
        }
    }

    /// Mutable access to the cell a key's coordinates resolve to.  Only
    /// initialized cells are reachable: within the open chunk the cursor is
    /// the limit, so a reference into never-written storage can never be
    /// handed out.
    fn get_existing_slot_mut(&mut self, key: &SlotMapKeyData) -> (r: Option<
        &mut (SlotMapKeyData, T),
    >)
        requires
            old(self).wf(),
            old(self).open_len() < crate::chunk_size(),
        ensures
            final(self).wf(),
            final(self).sealed_len() == old(self).sealed_len(),
            final(self).open_len() == old(self).open_len(),
            r.is_some() == slot_index_for_len(old(self).total_len(), *key).is_some(),
            r.is_none() ==> *final(self) == *old(self),
            r.is_some() ==> *r.unwrap() == old(self).cells()[slot_index_for_len(
                old(self).total_len(),
                *key,
            ).unwrap()] && final(self).cells() == old(self).cells().update(
                slot_index_for_len(old(self).total_len(), *key).unwrap(),
                *final(r.unwrap()),
            ),
    {
        proof {
            self.lemma_structure();
        }
        let sealed_count = self.sealed_cells.len() / SLOT_MAP_CHUNK_SIZE;
        let ci = key.chunk_index as usize;
        let ii = key.index_in_chunk as usize;
        if ci < sealed_count {
            if ii < SLOT_MAP_CHUNK_SIZE {
                proof {
                    assert((ci + 1) * crate::chunk_size() <= sealed_count * crate::chunk_size())
                        by (nonlinear_arith)
                        requires
                            ci + 1 <= sealed_count,
                            crate::chunk_size() > 0,
                    ;
                }
                Some(&mut self.sealed_cells[ci * SLOT_MAP_CHUNK_SIZE + ii])
            } else {
                None
            }
        } else if ii < self.current_chunk.len() {
            Some(&mut self.current_chunk[ii])
        } else {
            None
        }
    }

    /// Append one cell to the open chunk, advancing the cursor.
    fn push_to_current_chunk(&mut self, key: SlotMapKeyData, value: T)
        requires
            old(self).wf(),
            old(self).open_len() < crate::chunk_size(),
        ensures
            final(self).wf(),
            final(self).sealed_len() == old(self).sealed_len(),
            final(self).open_len() == old(self).open_len() + 1,
            final(self).cells() == old(self).cells().push((key, value)),
    {
        self.current_chunk.push((key, value));
    }

    /// Move the (now full) open chunk into the sealed region and reset the
    /// cursor.  No cell moves coordinate: the flat order is unchanged.
    fn move_current_chunk_to_filled_chunk(&mut self)
        requires
            old(self).wf(),
            old(self).open_len() == crate::chunk_size(),
        ensures
            final(self).wf(),
            final(self).cells() == old(self).cells(),
            final(self).open_len() == 0,
            final(self).sealed_len() == old(self).sealed_len() + crate::chunk_size(),
    {
        let ghost old_sealed = self.sealed_cells@;
        let ghost old_current = self.current_chunk@;
        self.sealed_cells.append(&mut self.current_chunk);
        proof {
            assert(self.cells() =~= old_sealed + old_current);
            lemma_fundamental_div_mod(old_sealed.len() as int, crate::chunk_size());
            lemma_fundamental_div_mod_converse(
                old_sealed.len() + crate::chunk_size(),
                crate::chunk_size(),
                old_sealed.len() as int / crate::chunk_size() + 1,
                0,
            );
        }
    }

    /// Number of sealed chunks.
    pub fn sealed_chunk_count(&self) -> (r: usize)
        requires
            self.wf(),
        ensures
            r == self.spec_sealed_count(),
    {
        self.sealed_cells.len() / SLOT_MAP_CHUNK_SIZE
    }

    /// The fill cursor of the open chunk: how many of its cells have been
    /// initialized.
    pub fn open_cursor(&self) -> (r: usize)
        ensures
            r == self.open_len(),
    {
        self.current_chunk.len()
    }

    /// All initialized cells, in flat coordinate order.
    pub fn values(&self) -> (r: Vec<&(SlotMapKeyData, T)>)
        ensures
            r@.len() == self.total_len(),
            forall|j: int| 0 <= j < r@.len() ==> *(#[trigger] r@[j]) == self.cells()[j],
    {
        let mut result: Vec<&(SlotMapKeyData, T)> = Vec::new();
        let mut idx: usize = 0;
        while idx < self.sealed_cells.len()
            invariant
                idx <= self.sealed_cells@.len(),
                result@.len() == idx,
                forall|j: int| 0 <= j < idx ==> *(#[trigger] result@[j]) == self.sealed_cells@[j],
            decreases self.sealed_cells@.len() - idx,
        {
            result.push(&self.sealed_cells[idx]);
            idx = idx + 1;
        }
        let mut idx2: usize = 0;
        while idx2 < self.current_chunk.len()
            invariant
                idx2 <= self.current_chunk@.len(),
                result@.len() == self.sealed_cells@.len() + idx2,
                forall|j: int|
                    0 <= j < result@.len() ==> *(#[trigger] result@[j]) == self.cells()[j],
            decreases self.current_chunk@.len() - idx2,
        {
            result.push(&self.current_chunk[idx2]);
            idx2 = idx2 + 1;
        }
        result
    }

    /// Mutable access to the initialized cell at flat position `n`, or
    /// nothing past the last initialized cell.
    pub fn values_mut(&mut self, n: usize) -> (r: Option<&mut (SlotMapKeyData, T)>)
        ensures
            final(self).sealed_len() == old(self).sealed_len(),
            final(self).open_len() == old(self).open_len(),
            final(self).wf() == old(self).wf(),
            r.is_some() == (n < old(self).total_len()),
            r.is_none() ==> *final(self) == *old(self),
            r.is_some() ==> *r.unwrap() == old(self).cells()[n as int] && final(self).cells()
                == old(self).cells().update(n as int, *final(r.unwrap())),
    {
        if n < self.sealed_cells.len() {
            Some(&mut self.sealed_cells[n])
        } else {
            let rel = n - self.sealed_cells.len();
            if rel < self.current_chunk.len() {
                Some(&mut self.current_chunk[rel])
            } else {
                None
            }
        }
    }

    /// Every initialized cell in flat order, each paired with its true
    /// coordinates (at the cell's stored generation).  A vacant cell's own
    /// stored coordinates hold its free-list link instead, so a traversal
    /// must reconstruct where each cell actually sits.
    pub fn iter_raw(&self) -> (r: Vec<(SlotMapKeyData, &(SlotMapKeyData, T))>)
        requires
            self.wf(),
            self.open_len() < crate::chunk_size(),
            self.total_len() <= max_capacity(),
        ensures
            r@.len() == self.total_len(),
            forall|j: int|
                0 <= j < r@.len() ==> {
                    &&& (#[trigger] r@[j]).0.coord_ok()
                    &&& r@[j].0.index_of() == j
                    &&& r@[j].0.generation == self.cells()[j].0.generation
                    &&& *r@[j].1 == self.cells()[j]
                },
    {
        proof {
            self.lemma_structure();
        }
        let mut result: Vec<(SlotMapKeyData, &(SlotMapKeyData, T))> = Vec::new();
        let mut idx: usize = 0;
        let mut ci: usize = 0;
        let mut ii: usize = 0;
        while idx < self.sealed_cells.len()
            invariant
                idx <= self.sealed_cells@.len(),
                self.sealed_cells@.len() + self.current_chunk@.len() <= max_capacity(),
                idx == ci * crate::chunk_size() + ii,
                0 <= ii < crate::chunk_size(),
                0 <= ci,
                result@.len() == idx,
                forall|j: int|
                    0 <= j < idx ==> {
                        &&& (#[trigger] result@[j]).0.coord_ok()
                        &&& result@[j].0.index_of() == j
                        &&& result@[j].0.generation == self.cells()[j].0.generation
                        &&& *result@[j].1 == self.cells()[j]
                    },
            decreases self.sealed_cells@.len() - idx,
        {
            proof {
                assert(ci < 0xFFFF_FFFF);
            }
            let key = SlotMapKeyData {
                index_in_chunk: ii as u16,
                chunk_index: ci as u32,
                generation: self.sealed_cells[idx].0.generation,
            };
            result.push((key, &self.sealed_cells[idx]));
            idx = idx + 1;
            ii = ii + 1;
            if ii == SLOT_MAP_CHUNK_SIZE {
                ii = 0;
                ci = ci + 1;
            }
        }
        let sealed_count = self.sealed_cells.len() / SLOT_MAP_CHUNK_SIZE;
        let mut idx2: usize = 0;
        while idx2 < self.current_chunk.len()
            invariant
                idx2 <= self.current_chunk@.len(),
                self.wf(),
                self.open_len() < crate::chunk_size(),
                self.sealed_cells@.len() + self.current_chunk@.len() <= max_capacity(),
                sealed_count == self.spec_sealed_count(),
                sealed_count * crate::chunk_size() == self.sealed_len(),
                sealed_count <= 0xFFFF_FFFF,
                result@.len() == self.sealed_cells@.len() + idx2,
                forall|j: int|
                    0 <= j < result@.len() ==> {
                        &&& (#[trigger] result@[j]).0.coord_ok()
                        &&& result@[j].0.index_of() == j
                        &&& result@[j].0.generation == self.cells()[j].0.generation
                        &&& *result@[j].1 == self.cells()[j]
                    },
            decreases self.current_chunk@.len() - idx2,
        {
            let key = SlotMapKeyData {
                index_in_chunk: idx2 as u16,
                chunk_index: sealed_count as u32,
                generation: self.current_chunk[idx2].0.generation,
            };
            result.push((key, &self.current_chunk[idx2]));
            idx2 = idx2 + 1;
        }
        result
    }

    /// Read-only access to the initialized cell at flat position `n`.
    fn cell_at(&self, n: usize) -> (r: Option<&(SlotMapKeyData, T)>)
        ensures
            r.is_some() == (n < self.total_len()),
            r.is_some() ==> *r.unwrap() == self.cells()[n as int],
    {
        if n < self.sealed_cells.len() {
            Some(&self.sealed_cells[n])
        } else {
            let rel = n - self.sealed_cells.len();
            if rel < self.current_chunk.len() {
                Some(&self.current_chunk[rel])
            } else {
                None
            }
        }
    }

    /// Number of initialized cells altogether.
    fn total_cells(&self) -> (r: usize)
        requires
            self.total_len() <= usize::MAX,
        ensures
            r == self.total_len(),
    {
        self.sealed_cells.len() + self.current_chunk.len()
    }

    /// A storage of the same shape with every cell's value sent through
    /// `mapper`: same chunks, same cursor, every cell's key kept — including
    /// the free-list links hidden in vacant cells' keys.
    pub fn map<R, F: Fn(&T) -> R>(&self, mapper: &F) -> (r: Slots<R>)
        requires
            forall|v: &T| #[trigger] mapper.requires((v,)),
        ensures
            r.wf() == self.wf(),
            r.sealed_len() == self.sealed_len(),
            r.open_len() == self.open_len(),
            r.cells().len() == self.cells().len(),
            forall|j: int|
                0 <= j < self.cells().len() ==> (#[trigger] r.cells()[j]).0 == self.cells()[j].0
                    && mapper.ensures((&self.cells()[j].1,), r.cells()[j].1),
    {
        let mut sealed_cells: Vec<(SlotMapKeyData, R)> = Vec::new();
        let mut i: usize = 0;
        while i < self.sealed_cells.len()
            invariant
                forall|v: &T| #[trigger] mapper.requires((v,)),
                i <= self.sealed_cells@.len(),
                sealed_cells@.len() == i,
                forall|j: int|
                    0 <= j < i ==> (#[trigger] sealed_cells@[j]).0 == self.sealed_cells@[j].0
                        && mapper.ensures((&self.sealed_cells@[j].1,), sealed_cells@[j].1),
            decreases self.sealed_cells@.len() - i,
        {
            let cell = &self.sealed_cells[i];
            sealed_cells.push((cell.0, mapper(&cell.1)));
            i = i + 1;
        }
        let mut current_chunk: Vec<(SlotMapKeyData, R)> = Vec::new();
        let mut i2: usize = 0;
        while i2 < self.current_chunk.len()
            invariant
                forall|v: &T| #[trigger] mapper.requires((v,)),
                i2 <= self.current_chunk@.len(),
                current_chunk@.len() == i2,
                forall|j: int|
                    0 <= j < i2 ==> (#[trigger] current_chunk@[j]).0 == self.current_chunk@[j].0
                        && mapper.ensures((&self.current_chunk@[j].1,), current_chunk@[j].1),
            decreases self.current_chunk@.len() - i2,
        {
            let cell = &self.current_chunk[i2];
            current_chunk.push((cell.0, mapper(&cell.1)));
            i2 = i2 + 1;
        }
        Slots { sealed_cells, current_chunk }
    }

    /// Mutable access to the initialized cell at flat position `n`, paired
    /// with its true coordinates (at the cell's stored generation), or
    /// nothing past the last initialized cell.
    pub fn iter_mut_raw(&mut self, n: usize) -> (r: Option<(SlotMapKeyData, &mut (SlotMapKeyData, T))>)
        requires
            old(self).wf(),
            old(self).open_len() < crate::chunk_size(),
            old(self).total_len() <= max_capacity(),
        ensures
            final(self).wf(),
            final(self).sealed_len() == old(self).sealed_len(),
            final(self).open_len() == old(self).open_len(),
            r.is_some() == (n < old(self).total_len()),
            r.is_none() ==> *final(self) == *old(self),
            r.is_some() ==> {
                &&& r.unwrap().0.coord_ok()
                &&& r.unwrap().0.index_of() == n as int
                &&& r.unwrap().0.generation == old(self).cells()[n as int].0.generation
                &&& *r.unwrap().1 == old(self).cells()[n as int]
                &&& final(self).cells() == old(self).cells().update(n as int, *final(r.unwrap().1))
            },
    {
        proof {
            self.lemma_structure();
        }
        let ci = n / SLOT_MAP_CHUNK_SIZE;
        let ii = n % SLOT_MAP_CHUNK_SIZE;
        proof {
            lemma_fundamental_div_mod(n as int, crate::chunk_size());
            if n < self.total_len() {
                assert(ci * crate::chunk_size() <= n);
                assert(ci < 0xFFFF_FFFF) by {
                    assert(self.total_len() <= 0xFFFF_FFFFint * 256);
                    assert(ci * 256 < 0xFFFF_FFFFint * 256);
                }
            }
        }
        if n < self.sealed_cells.len() {
            let key = SlotMapKeyData {
                index_in_chunk: ii as u16,
                chunk_index: ci as u32,
                generation: self.sealed_cells[n].0.generation,
            };
            Some((key, &mut self.sealed_cells[n]))
        } else {
            let rel = n - self.sealed_cells.len();
            if rel < self.current_chunk.len() {
                let key = SlotMapKeyData {
                    index_in_chunk: ii as u16,
                    chunk_index: ci as u32,
                    generation: self.current_chunk[rel].0.generation,
                };
                proof {
                    assert(n == self.spec_sealed_count() * crate::chunk_size() + rel);
                    lemma_flat_coord(self.spec_sealed_count(), rel as int);
                }
                Some((key, &mut self.current_chunk[rel]))
            } else {
                None
            }
        }
    }
}


/// The slot map: chunked storage, the free-list head, and the live count.
///
/// `K` is the key type handed to callers, `P` the payload it embeds, `T` the
/// stored value type.  A key stays valid until its cell is vacated; a vacated
/// cell keeps its value resident until a later insertion overwrites it.
pub struct SlotMap<K, P, T> where K: SlotMapKey<P> {
    slots: Slots<T>,
    next_open_slot: SlotMapKeyData,
    len: usize,
    free_list: Ghost<Seq<int>>,
    _phantom: core::marker::PhantomData<(K, P)>,
}

impl<K: SlotMapKey<P>, P, T> View for SlotMap<K, P, T> {
    type V = MapModel<T>;

    closed spec fn view(&self) -> MapModel<T> {
        MapModel {
            cells: self.slots.cells(),
            next_open_slot: self.next_open_slot,
            free_list: self.free_list@,
        }
    }
}

impl<K: SlotMapKey<P>, P, T> SlotMap<K, P, T> {
    /// The number of live (occupied) cells.
    pub open spec fn spec_len(self) -> nat {
        count_filled(self@.cells)
    }

    /// The map's internal invariant: the storage holds whole sealed chunks
    /// and a short open chunk, the model is well formed (every occupied cell
    /// stores its own coordinates, the free list threads exactly the vacant
    /// cells), and the live counter equals the number of occupied cells.
    pub closed spec fn wf(self) -> bool {
        &&& self.slots.wf()
        &&& self.slots.open_len() < crate::chunk_size()
        &&& self.slots.cells() == self@.cells
        &&& wf_model(self@)
        &&& self@.cells.len() <= usize::MAX
        &&& self.len == count_filled(self@.cells)
    }

    /// A well-formed map has a well-formed model, within capacity.
    pub proof fn lemma_wf_implies_model_wf(self)
        requires
            self.wf(),
        ensures
            wf_model(self@),
            self@.cells.len() <= max_capacity(),
    {
    }

    /// Number of sealed chunks.
    pub fn sealed_chunk_count(&self) -> (r: usize)
        requires
            self.wf(),
        ensures
            r == self@.cells.len() as int / crate::chunk_size(),
    {
        proof {
            self.slots.lemma_structure();
        }
        self.slots.sealed_chunk_count()
    }

    /// The open chunk's fill cursor.
    pub fn open_cursor(&self) -> (r: usize)
        requires
            self.wf(),
        ensures
            r == self@.cells.len() as int % crate::chunk_size(),
    {
        proof {
            self.slots.lemma_structure();
        }
        self.slots.open_cursor()
    }

    /// Read-only view of the whole storage, vacant cells included.  What a
    /// vacant cell's key and resident value hold is visible here, as through
    /// any raw traversal of the storage.
    pub fn storage(&self) -> (r: &Slots<T>)
        requires
            self.wf(),
        ensures
            r.wf(),
            r.cells() == self@.cells,
            r.open_len() < crate::chunk_size(),
    {
        &self.slots
    }

    /// The free-list head: the coordinates of the cell the next insertion
    /// will fill — the most recently vacated cell, or the first
    /// never-initialized coordinate when no cell is vacant.
    pub fn next_open_slot(&self) -> (r: SlotMapKeyData)
        ensures
            r == self@.next_open_slot,
    {
        self.next_open_slot
    }

    /// A fresh, empty slot map.
    pub fn new() -> (r: SlotMap<K, P, T>)
        ensures
            r.wf(),
            r@ == empty_model::<T>(),
            r.spec_len() == 0,
    {
        let r = SlotMap {
            slots: Slots::new(),
            next_open_slot: SlotMapKeyData { index_in_chunk: 0, chunk_index: 0, generation: 0 },
            len: 0,
            free_list: Ghost(Seq::empty()),
            _phantom: core::marker::PhantomData,
        };
        proof {
            assert(r@.cells =~= empty_model::<T>().cells);
            assert(r@.free_list =~= empty_model::<T>().free_list);
            lemma_empty_model_wf::<T>();
        }
        r
    }

    /// The number of items in the map: always the number of occupied cells.
    pub fn len(&self) -> (r: usize)
        requires
            self.wf(),
        ensures
            r == self.spec_len(),
    {
        self.len
    }

    /// Whether the map holds no items.
    pub fn is_empty(&self) -> (r: bool)
        requires
            self.wf(),
        ensures
            r == (self.spec_len() == 0),
    {
        self.len == 0
    }

    /// Insert a value and hand back its key, built from the given payload.
    ///
    /// The most recently vacated cell is reused first (its generation
    /// advances to even again and its value is overwritten); with no vacated
    /// cell the value goes into the open chunk's next cell at generation
    /// zero, sealing the chunk when this fills it.
    pub fn insert(&mut self, pointer: P, value: T) -> (r: K)
        requires
            old(self).wf(),
            old(self)@.cells.len() < max_capacity(),
            old(self).spec_len() < usize::MAX,
        ensures
            final(self).wf(),
            final(self)@ == spec_insert_model(old(self)@, value),
            r.spec_key_data() == spec_insert_key(old(self)@),
            r.spec_pointer() == pointer,
            r.spec_key_data().wf(),
            spec_get(final(self)@, r.spec_key_data()) == Some(value),
            final(self).spec_len() == old(self).spec_len() + 1,
    {
        let ghost m = old(self)@;
        proof {
            lemma_insert_preserves_wf(m, value);
            lemma_reuses_iff_free_list(m);
            self.slots.lemma_structure();
            if m.free_list.len() == 0 {
                lemma_slot_index_sentinel(m.cells.len() as int, m.next_open_slot);
            } else {
                lemma_slot_index_canonical(m.cells.len() as int, m.next_open_slot);
                lemma_slot_index_in_range(m.cells.len() as int, m.next_open_slot);
            }
        }
        let sealed_count = self.slots.sealed_chunk_count();
        let open_cursor = self.slots.open_cursor();
        let reuse = (self.next_open_slot.chunk_index as usize) < sealed_count
            || (self.next_open_slot.index_in_chunk as usize) < open_cursor;
        proof {
            assert(reuse == spec_reuses(m));
        }
        if reuse {
            let ghost j = m.next_open_slot.index_of();
            let key_copy = self.next_open_slot;
            let cell_opt = self.slots.get_existing_slot_mut(&key_copy);
            proof {
                assert(slot_index_for_len(m.cells.len() as int, key_copy) == Some(j));
                assert(m.cells[j].0.wf());
            }
            let cell = cell_opt.unwrap();
            cell.1 = value;
            cell.0.increment_generation();
            cell.0.swap_coordinates(&mut self.next_open_slot);
            let key_data = cell.0;
            self.len = self.len + 1;
            proof {
                lemma_count_filled_le_len(m.cells);
            }
            self.free_list = Ghost(m.free_list.drop_first());
            proof {
                assert(key_data == spec_insert_key(m));
                assert(self@.cells == spec_insert_model(m, value).cells);
                assert(self@.next_open_slot == spec_insert_model(m, value).next_open_slot);
                assert(self@.free_list == spec_insert_model(m, value).free_list);
                lemma_count_filled_update(m.cells, j, (spec_insert_key(m), value));
            }
            K::from_parts(pointer, key_data)
        } else {
            let key_data = self.next_open_slot;
            proof {
                assert(m.next_open_slot.chunk_index < 0xFFFF_FFFFu32) by {
                    assert(m.next_open_slot.index_of() == m.cells.len());
                    assert(m.next_open_slot.chunk_index * 256 <= m.cells.len());
                    assert(m.cells.len() < 0xFFFF_FFFFint * 256);
                }
                assert forall|j2: int| 0 <= j2 < m.cells.len() implies (#[trigger] m.cells[j2]).0.spec_is_filled() by {
                    if !m.cells[j2].0.spec_is_filled() {
                        assert(m.free_list.contains(j2));
                    }
                }
                lemma_count_all_filled(m.cells);
            }
            self.slots.push_to_current_chunk(key_data, value);
            let wrapped = self.next_open_slot.increment_coordinates();
            if wrapped {
                proof {
                    assert(self.slots.open_len() == crate::chunk_size());
                }
                self.slots.move_current_chunk_to_filled_chunk();
            }
            self.len = self.len + 1;
            proof {
                lemma_count_filled_push(m.cells, (key_data, value));
                assert(self@.cells == spec_insert_model(m, value).cells);
                assert(self@.next_open_slot == spec_insert_model(m, value).next_open_slot);
                assert(self@.free_list == spec_insert_model(m, value).free_list);
            }
            K::from_parts(pointer, key_data)
        }
    }

    /// Look up a value by bare coordinate-and-generation triple: the cell
    /// the coordinates resolve to, provided it is occupied at exactly the
    /// triple's generation.  A vacated or reused cell never matches.
    pub fn get_raw(&self, key_data: &SlotMapKeyData) -> (r: Option<&T>)
        requires
            self.wf(),
        ensures
            r.is_some() == spec_get(self@, *key_data).is_some(),
            r.is_some() ==> *r.unwrap() == spec_get(self@, *key_data).unwrap(),
    {
        match self.slots.get_slot(key_data) {
            Some(cell) => {
                if cell.0.is_filled() && cell.0.generation == key_data.generation {
                    Some(&cell.1)
                } else {
                    None
                }
            },
            None => None,
        }
    }

    /// Look up a value by any key type fulfilling the key contract, not only
    /// the map's own: the check is the same as `get`.
    pub fn get_unbounded<KO: SlotMapKey<PO>, PO>(&self, key: &KO) -> (r: Option<&T>)
        requires
            self.wf(),
        ensures
            r.is_some() == spec_get(self@, key.spec_key_data()).is_some(),
            r.is_some() ==> *r.unwrap() == spec_get(self@, key.spec_key_data()).unwrap(),
    {
        self.get_raw(key.get_slot_map_key_data())
    }

    /// Look up the value a key denotes, if the key is still valid.
    pub fn get(&self, key: &K) -> (r: Option<&T>)
        requires
            self.wf(),
        ensures
            r.is_some() == spec_get(self@, key.spec_key_data()).is_some(),
            r.is_some() ==> *r.unwrap() == spec_get(self@, key.spec_key_data()).unwrap(),
    {
        self.get_unbounded(key)
    }

    /// Whether the given triple currently denotes a live cell.
    pub fn contains_key_raw(&self, key_data: &SlotMapKeyData) -> (r: bool)
        requires
            self.wf(),
        ensures
            r == spec_get(self@, *key_data).is_some(),
    {
        self.get_raw(key_data).is_some()
    }

    /// Whether the given key (of any key type) is still valid in this map.
    pub fn contains_key_unbounded<KO: SlotMapKey<PO>, PO>(&self, key: &KO) -> (r: bool)
        requires
            self.wf(),
        ensures
            r == spec_get(self@, key.spec_key_data()).is_some(),
    {
        self.contains_key_raw(key.get_slot_map_key_data())
    }

    /// Whether the given key is still valid in this map.
    pub fn contains_key(&self, key: &K) -> (r: bool)
        requires
            self.wf(),
        ensures
            r == spec_get(self@, key.spec_key_data()).is_some(),
    {
        self.contains_key_unbounded(key)
    }

    /// Mutable lookup by bare triple, with the same validity check as
    /// `get_raw`.  Only the resolved cell's value can change through the
    /// returned reference; keys, the free list and the live count cannot.
    pub fn get_mut_raw(&mut self, key_data: &SlotMapKeyData) -> (r: Option<&mut T>)
        requires
            old(self).wf(),
        ensures
            final(self).wf(),
            r.is_some() == spec_get(old(self)@, *key_data).is_some(),
            r.is_none() ==> final(self)@ == old(self)@,
            r.is_some() ==> *r.unwrap() == spec_get(old(self)@, *key_data).unwrap()
                && final(self)@ == spec_value_updated(old(self)@, *key_data, *final(r.unwrap())),
            final(self).spec_len() == old(self).spec_len(),
    {
        broadcast use crate::model::lemma_count_filled_update, crate::model::lemma_wf_model_same_keys;

        let ghost m = old(self)@;
        proof {
            lemma_value_updated_wf(m, *key_data);
            if spec_remove_hits(m, *key_data).is_some() {
                lemma_slot_index_in_range(m.cells.len() as int, *key_data);
            }
        }
        let valid = match self.slots.get_slot(key_data) {
            Some(cell) => cell.0.is_filled() && cell.0.generation == key_data.generation,
            None => false,
        };
        if valid {
            let cell_opt = self.slots.get_existing_slot_mut(key_data);
            let cell = cell_opt.unwrap();
            Some(&mut cell.1)
        } else {
            None
        }
    }

    /// Mutable lookup by any key type fulfilling the key contract.
    pub fn get_mut_unbounded<KO: SlotMapKey<PO>, PO>(&mut self, key: &KO) -> (r: Option<&mut T>)
        requires
            old(self).wf(),
        ensures
            final(self).wf(),
            r.is_some() == spec_get(old(self)@, key.spec_key_data()).is_some(),
            r.is_none() ==> final(self)@ == old(self)@,
            r.is_some() ==> *r.unwrap() == spec_get(old(self)@, key.spec_key_data()).unwrap()
                && final(self)@ == spec_value_updated(old(self)@, key.spec_key_data(), *final(r.unwrap())),
            final(self).spec_len() == old(self).spec_len(),
    {
        let key_data = *key.get_slot_map_key_data();
        self.get_mut_raw(&key_data)
    }

    /// Mutable lookup by key, if the key is still valid.
    pub fn get_mut(&mut self, key: &K) -> (r: Option<&mut T>)
        requires
            old(self).wf(),
        ensures
            final(self).wf(),
            r.is_some() == spec_get(old(self)@, key.spec_key_data()).is_some(),
            r.is_none() ==> final(self)@ == old(self)@,
            r.is_some() ==> *r.unwrap() == spec_get(old(self)@, key.spec_key_data()).unwrap()
                && final(self)@ == spec_value_updated(old(self)@, key.spec_key_data(), *final(r.unwrap())),
            final(self).spec_len() == old(self).spec_len(),
    {
        self.get_mut_unbounded(key)
    }

    /// Remove by bare triple.  On a hit the cell's generation advances (now
    /// odd: vacant), the cell becomes the new front of the free list, the
    /// live count drops by one, and a mutable reference to the still-resident
    /// value is handed back: the value itself never leaves the map.  A stale
    /// or foreign triple removes nothing.
    pub fn remove_raw(&mut self, key_data: &SlotMapKeyData) -> (r: Option<&mut T>)
        requires
            old(self).wf(),
        ensures
            final(self).wf(),
            r.is_some() == spec_remove_hits(old(self)@, *key_data).is_some(),
            r.is_none() ==> final(self)@ == old(self)@,
            r.is_some() ==> *r.unwrap() == old(self)@.cells[spec_remove_hits(old(self)@, *key_data).unwrap()].1
                && final(self)@ == spec_remove_model_with(old(self)@, *key_data, *final(r.unwrap()))
                && final(self).spec_len() == old(self).spec_len() - 1,
    {
        broadcast use crate::model::lemma_count_filled_update, crate::model::lemma_wf_model_same_keys;

        let ghost m = old(self)@;
        proof {
            lemma_remove_with_wf(m, *key_data);
            lemma_remove_preserves_wf(m, *key_data);
            if spec_remove_hits(m, *key_data).is_some() {
                lemma_slot_index_in_range(m.cells.len() as int, *key_data);
                lemma_count_filled_pos(m.cells, spec_remove_hits(m, *key_data).unwrap());
            }
        }
        let valid = match self.slots.get_slot(key_data) {
            Some(cell) => cell.0.is_filled() && cell.0.generation == key_data.generation,
            None => false,
        };
        if valid {
            let ghost j = spec_remove_hits(m, *key_data).unwrap();
            proof {
                assert(m.cells[j].0.wf());
            }
            self.len = self.len - 1;
            self.free_list = Ghost(seq![j] + m.free_list);
            let cell_opt = self.slots.get_existing_slot_mut(key_data);
            let cell = cell_opt.unwrap();
            cell.0.increment_generation();
            cell.0.swap_coordinates(&mut self.next_open_slot);
            Some(&mut cell.1)
        } else {
            None
        }
    }

    /// Remove by any key type fulfilling the key contract.
    pub fn remove_unbounded<KO: SlotMapKey<PO>, PO>(&mut self, key: &KO) -> (r: Option<&mut T>)
        requires
            old(self).wf(),
        ensures
            final(self).wf(),
            r.is_some() == spec_remove_hits(old(self)@, key.spec_key_data()).is_some(),
            r.is_none() ==> final(self)@ == old(self)@,
            r.is_some() ==> *r.unwrap() == old(self)@.cells[spec_remove_hits(old(self)@, key.spec_key_data()).unwrap()].1
                && final(self)@ == spec_remove_model_with(old(self)@, key.spec_key_data(), *final(r.unwrap()))
                && final(self).spec_len() == old(self).spec_len() - 1,
    {
        let key_data = *key.get_slot_map_key_data();
        self.remove_raw(&key_data)
    }

    /// Remove by key: the key immediately stops resolving, and the cell is
    /// first in line for reuse.
    pub fn remove(&mut self, key: &K) -> (r: Option<&mut T>)
        requires
            old(self).wf(),
        ensures
            final(self).wf(),
            r.is_some() == spec_remove_hits(old(self)@, key.spec_key_data()).is_some(),
            r.is_none() ==> final(self)@ == old(self)@,
            r.is_some() ==> *r.unwrap() == old(self)@.cells[spec_remove_hits(old(self)@, key.spec_key_data()).unwrap()].1
                && final(self)@ == spec_remove_model_with(old(self)@, key.spec_key_data(), *final(r.unwrap()))
                && final(self).spec_len() == old(self).spec_len() - 1,
    {
        self.remove_unbounded(key)
    }

    /// All live values, in traversal order: sealed chunks first, then the
    /// open chunk, vacant cells skipped.
    #[verifier::loop_isolation(false)]
    pub fn values(&self) -> (r: Vec<&T>)
        requires
            self.wf(),
        ensures
            r@.len() == self.spec_len(),
            forall|p: int|
                0 <= p < r@.len() ==> *(#[trigger] r@[p]) == self@.cells[filled_indices(
                    self@.cells,
                )[p]].1,
    {
        let all = self.slots.values();
        let mut result: Vec<&T> = Vec::new();
        let mut i: usize = 0;
        while i < all.len()
            invariant
                i <= all@.len(),
                result@.len() == filled_indices(self@.cells.take(i as int)).len(),
                forall|p: int|
                    0 <= p < result@.len() ==> *(#[trigger] result@[p]) == self@.cells[filled_indices(
                        self@.cells.take(i as int),
                    )[p]].1,
            decreases all@.len() - i,
        {
            proof {
                assert(self@.cells.take(i + 1).drop_last() =~= self@.cells.take(i as int));
                lemma_filled_indices_take(self@.cells, i as int);
                lemma_filled_indices_take(self@.cells, i + 1);
            }
            let cell = all[i];
            if cell.0.is_filled() {
                result.push(&cell.1);
            }
            i = i + 1;
        }
        proof {
            assert(self@.cells.take(all@.len() as int) =~= self@.cells);
            lemma_count_is_filled_indices_len(self@.cells);
        }
        result
    }

    /// Every live cell's coordinates (at the cell's current generation)
    /// paired with its value, in traversal order.  Each yielded triple
    /// resolves to exactly the paired value.
    #[verifier::loop_isolation(false)]
    pub fn iter_raw(&self) -> (r: Vec<(SlotMapKeyData, &T)>)
        requires
            self.wf(),
        ensures
            r@.len() == self.spec_len(),
            forall|p: int|
                0 <= p < r@.len() ==> {
                    let j = filled_indices(self@.cells)[p];
                    &&& (#[trigger] r@[p]).0 == self@.cells[j].0
                    &&& *r@[p].1 == self@.cells[j].1
                },
    {
        let all = self.slots.iter_raw();
        let mut result: Vec<(SlotMapKeyData, &T)> = Vec::new();
        let mut i: usize = 0;
        while i < all.len()
            invariant
                i <= all@.len(),
                result@.len() == filled_indices(self@.cells.take(i as int)).len(),
                forall|p: int|
                    0 <= p < result@.len() ==> {
                        let j = filled_indices(self@.cells.take(i as int))[p];
                        &&& (#[trigger] result@[p]).0 == self@.cells[j].0
                        &&& *result@[p].1 == self@.cells[j].1
                    },
            decreases all@.len() - i,
        {
            proof {
                assert(self@.cells.take(i + 1).drop_last() =~= self@.cells.take(i as int));
                lemma_filled_indices_take(self@.cells, i as int);
                lemma_filled_indices_take(self@.cells, i + 1);
            }
            let pair = all[i];
            if pair.1.0.is_filled() {
                proof {
                    assert(self@.cells[i as int].0.wf());
                    lemma_coord_unique(pair.0, self@.cells[i as int].0);
                }
                result.push((pair.0, &pair.1.1));
            }
            i = i + 1;
        }
        proof {
            assert(self@.cells.take(all@.len() as int) =~= self@.cells);
            lemma_count_is_filled_indices_len(self@.cells);
        }
        result
    }

    /// Find the flat position of the `n`-th live cell, scanning in
    /// traversal order.
    #[verifier::loop_isolation(false)]
    fn find_filled(&self, n: usize) -> (r: Option<usize>)
        requires
            self.wf(),
        ensures
            r.is_some() == (n < self.spec_len()),
            r.is_some() ==> {
                let j = r.unwrap() as int;
                &&& j == filled_indices(self@.cells)[n as int]
                &&& 0 <= j < self@.cells.len()
                &&& self@.cells[j].0.spec_is_filled()
            },
    {
        let total = self.slots.total_cells();
        let mut idx: usize = 0;
        let mut seen: usize = 0;
        let mut found: Option<usize> = None;
        proof {
            assert(self@.cells.take(0) =~= Seq::<(SlotMapKeyData, T)>::empty());
            lemma_count_is_filled_indices_len(self@.cells);
        }
        while found.is_none() && idx < total
            invariant
                idx <= total,
                seen <= n,
                found.is_none() ==> seen == filled_indices(self@.cells.take(idx as int)).len(),
                found.is_some() ==> {
                    let j = found.unwrap() as int;
                    &&& j == filled_indices(self@.cells)[n as int]
                    &&& 0 <= j < self@.cells.len()
                    &&& self@.cells[j].0.spec_is_filled()
                    &&& n < self.spec_len()
                },
            decreases total - idx,
        {
            proof {
                assert(self@.cells.take(idx + 1).drop_last() =~= self@.cells.take(idx as int));
                lemma_filled_indices_take(self@.cells, idx + 1);
            }
            let is_live = match self.slots.cell_at(idx) {
                Some(cell) => cell.0.is_filled(),
                None => false,
            };
            if is_live {
                proof {
                    assert(self@.cells.take(idx + 1).last() == self@.cells[idx as int]);
                    assert(filled_indices(self@.cells.take(idx + 1)) == filled_indices(
                        self@.cells.take(idx as int),
                    ).push(idx as int));
                }
                if seen == n {
                    found = Some(idx);
                    proof {
                        assert(filled_indices(self@.cells.take(idx + 1))[n as int] == idx as int);
                    }
                } else {
                    seen = seen + 1;
                }
            } else {
                proof {
                    assert(self@.cells.take(idx + 1).last() == self@.cells[idx as int]);
                    assert(filled_indices(self@.cells.take(idx + 1)) == filled_indices(
                        self@.cells.take(idx as int),
                    ));
                }
            }
            idx = idx + 1;
        }
        proof {
            if found.is_none() {
                assert(idx == total);
                assert(self@.cells.take(total as int) =~= self@.cells);
            }
        }
        found
    }

    /// Mutable access to the `n`-th live value in traversal order, or
    /// nothing past the last.  Only that value can change through the
    /// returned reference.
    pub fn values_mut(&mut self, n: usize) -> (r: Option<&mut T>)
        requires
            old(self).wf(),
        ensures
            final(self).wf(),
            r.is_some() == (n < old(self).spec_len()),
            r.is_none() ==> final(self)@ == old(self)@,
            r.is_some() ==> {
                let j = filled_indices(old(self)@.cells)[n as int];
                &&& *r.unwrap() == old(self)@.cells[j].1
                &&& final(self)@ == spec_value_updated(old(self)@, old(self)@.cells[j].0, *final(r.unwrap()))
            },
            final(self).spec_len() == old(self).spec_len(),
    {
        broadcast use crate::model::lemma_count_filled_update, crate::model::lemma_wf_model_same_keys;

        let found = self.find_filled(n);
        match found {
            Some(j) => {
                let ghost key = self@.cells[j as int].0;
                proof {
                    assert(key.wf() && key.index_of() == j as int);
                    lemma_slot_index_canonical(self@.cells.len() as int, key);
                    assert(spec_remove_hits(self@, key) == Some(j as int));
                    lemma_value_updated_wf(self@, key);
                }
                let cell_opt = self.slots.values_mut(j);
                let cell = cell_opt.unwrap();
                Some(&mut cell.1)
            },
            None => None,
        }
    }

    /// Mutable access to the `n`-th live cell in traversal order: its
    /// coordinates (at the cell's current generation) paired with a mutable
    /// reference to its value.
    pub fn iter_mut_raw(&mut self, n: usize) -> (r: Option<(SlotMapKeyData, &mut T)>)
        requires
            old(self).wf(),
        ensures
            final(self).wf(),
            r.is_some() == (n < old(self).spec_len()),
            r.is_none() ==> final(self)@ == old(self)@,
            r.is_some() ==> {
                let j = filled_indices(old(self)@.cells)[n as int];
                &&& r.unwrap().0 == old(self)@.cells[j].0
                &&& *r.unwrap().1 == old(self)@.cells[j].1
                &&& final(self)@ == spec_value_updated(old(self)@, old(self)@.cells[j].0, *final(r.unwrap().1))
            },
            final(self).spec_len() == old(self).spec_len(),
    {
        broadcast use crate::model::lemma_count_filled_update, crate::model::lemma_wf_model_same_keys;

        let found = self.find_filled(n);
        match found {
            Some(j) => {
                let ghost key = self@.cells[j as int].0;
                proof {
                    assert(key.wf() && key.index_of() == j as int);
                    lemma_slot_index_canonical(self@.cells.len() as int, key);
                    assert(spec_remove_hits(self@, key) == Some(j as int));
                    lemma_value_updated_wf(self@, key);
                }
                let key_copy = match self.slots.cell_at(j) {
                    Some(cell) => cell.0,
                    None => SlotMapKeyData { index_in_chunk: 0, chunk_index: 0, generation: 0 },
                };
                let cell_opt = self.slots.values_mut(j);
                let cell = cell_opt.unwrap();
                Some((key_copy, &mut cell.1))
            },
            None => None,
        }
    }

    /// Every live cell as a full key (payload found by `pointer_finder`)
    /// paired with its value, in traversal order.
    #[verifier::loop_isolation(false)]
    pub fn iter<F: Fn(&T) -> P>(&self, pointer_finder: &F) -> (r: Vec<(K, &T)>)
        requires
            self.wf(),
            forall|v: &T| #[trigger] pointer_finder.requires((v,)),
        ensures
            r@.len() == self.spec_len(),
            forall|p: int|
                0 <= p < r@.len() ==> {
                    let j = filled_indices(self@.cells)[p];
                    &&& (#[trigger] r@[p]).0.spec_key_data() == self@.cells[j].0
                    &&& *r@[p].1 == self@.cells[j].1
                    &&& pointer_finder.ensures((r@[p].1,), r@[p].0.spec_pointer())
                },
    {
        let raw = self.iter_raw();
        let mut result: Vec<(K, &T)> = Vec::new();
        let mut i: usize = 0;
        while i < raw.len()
            invariant
                i <= raw@.len(),
                result@.len() == i,
                forall|p: int|
                    0 <= p < i ==> {
                        let j = filled_indices(self@.cells)[p];
                        &&& (#[trigger] result@[p]).0.spec_key_data() == self@.cells[j].0
                        &&& *result@[p].1 == self@.cells[j].1
                        &&& pointer_finder.ensures((result@[p].1,), result@[p].0.spec_pointer())
                    },
            decreases raw@.len() - i,
        {
            let pair = raw[i];
            let pointer = pointer_finder(pair.1);
            let key = K::from_parts(pointer, pair.0);
            result.push((key, pair.1));
            i = i + 1;
        }
        result
    }

    /// The `n`-th live cell in traversal order as a full key (payload found
    /// by `pointer_finder`) paired with a mutable reference to its value.
    pub fn iter_mut<F: Fn(&T) -> P>(&mut self, pointer_finder: &F, n: usize) -> (r: Option<
        (K, &mut T),
    >)
        requires
            old(self).wf(),
            forall|v: &T| #[trigger] pointer_finder.requires((v,)),
        ensures
            final(self).wf(),
            r.is_some() == (n < old(self).spec_len()),
            r.is_none() ==> final(self)@ == old(self)@,
            r.is_some() ==> {
                let j = filled_indices(old(self)@.cells)[n as int];
                let v = old(self)@.cells[j].1;
                &&& r.unwrap().0.spec_key_data() == old(self)@.cells[j].0
                &&& *r.unwrap().1 == v
                &&& pointer_finder.ensures((&v,), r.unwrap().0.spec_pointer())
                &&& final(self)@ == spec_value_updated(old(self)@, old(self)@.cells[j].0, *final(r.unwrap().1))
            },
            final(self).spec_len() == old(self).spec_len(),
    {
        broadcast use crate::model::lemma_count_filled_update, crate::model::lemma_wf_model_same_keys;

        let found = self.find_filled(n);
        match found {
            Some(j) => {
                let ghost key = self@.cells[j as int].0;
                proof {
                    assert(key.wf() && key.index_of() == j as int);
                    lemma_slot_index_canonical(self@.cells.len() as int, key);
                    assert(spec_remove_hits(self@, key) == Some(j as int));
                    lemma_value_updated_wf(self@, key);
                }
                let (key_copy, pointer) = match self.slots.cell_at(j) {
                    Some(cell) => (cell.0, pointer_finder(&cell.1)),
                    None => {
                        proof {
                            assert(false);
                        }
                        unreached()
                    },
                };
                let full_key = K::from_parts(pointer, key_copy);
                let cell_opt = self.slots.values_mut(j);
                let cell = cell_opt.unwrap();
                Some((full_key, &mut cell.1))
            },
            None => None,
        }
    }

    /// A map of the same shape with every cell's value sent through
    /// `mapper`: same chunks, same cursor, same free list, same live count,
    /// every key still valid for the corresponding new value.
    pub fn map<R, F: Fn(&T) -> R>(&self, mapper: &F) -> (r: SlotMap<K, P, R>)
        requires
            forall|v: &T| #[trigger] mapper.requires((v,)),
        ensures
            self.wf() ==> r.wf(),
            r@.next_open_slot == self@.next_open_slot,
            r@.free_list == self@.free_list,
            r@.cells.len() == self@.cells.len(),
            forall|j: int|
                0 <= j < self@.cells.len() ==> (#[trigger] r@.cells[j]).0 == self@.cells[j].0
                    && mapper.ensures((&self@.cells[j].1,), r@.cells[j].1),
    {
        let mapped = self.slots.map(mapper);
        let r = SlotMap {
            slots: mapped,
            next_open_slot: self.next_open_slot,
            len: self.len,
            free_list: Ghost(self.free_list@),
            _phantom: core::marker::PhantomData,
        };
        proof {
            if self.wf() {
                lemma_wf_model_same_keys_other_type(self@, r@);
                lemma_count_filled_same_keys(r@.cells, self@.cells);
            }
        }
        r
    }

    /// Vacate the occupied cell at flat position `n`: the one step of the
    /// sweep `drain` makes for each occupied cell.
    fn vacate_cell_at(&mut self, n: usize)
        requires
            old(self).wf(),
            n < old(self)@.cells.len(),
            old(self)@.cells[n as int].0.spec_is_filled(),
        ensures
            final(self).wf(),
            final(self)@.cells.len() == old(self)@.cells.len(),
            final(self).spec_len() == old(self).spec_len() - 1,
            final(self)@.free_list == seq![n as int] + old(self)@.free_list,
            forall|x: int|
                0 <= x < old(self)@.cells.len() && x != n ==> final(self)@.cells[x] == old(
                    self,
                )@.cells[x],
            final(self)@.cells[n as int].1 == old(self)@.cells[n as int].1,
            final(self)@.cells[n as int].0.generation == old(self)@.cells[n as int].0.generation
                + 1,
    {
        let ghost m = self@;
        let key = match self.slots.cell_at(n) {
            Some(cell) => cell.0,
            None => SlotMapKeyData { index_in_chunk: 0, chunk_index: 0, generation: 0 },
        };
        proof {
            assert(key == m.cells[n as int].0);
            assert(key.wf() && key.index_of() == n as int);
            lemma_slot_index_canonical(m.cells.len() as int, key);
            assert(spec_remove_hits(m, key) == Some(n as int));
        }
        let _ = self.remove_raw(&key);
        proof {
            // The generation was even, hence strictly below the odd maximum:
            // the advance cannot wrap.
            assert(m.cells[n as int].0.generation < crate::slot_map_key_data::MAX_GENERATION);
        }
    }

    /// Vacate every occupied cell, leaving all values resident: each
    /// occupied cell's generation advances (now odd), and the cells join the
    /// free list front-first in traversal order, so afterwards the live
    /// count is zero and nothing resolves, while the storage keeps its
    /// shape.  Read the values out first where they are still wanted.
    #[verifier::rlimit(100)]
    #[verifier::spinoff_prover]
    pub fn drain(&mut self)
        requires
            old(self).wf(),
        ensures
            final(self).wf(),
            final(self)@.cells.len() == old(self)@.cells.len(),
            final(self).spec_len() == 0,
            forall|j: int|
                0 <= j < old(self)@.cells.len() ==> {
                    &&& (#[trigger] final(self)@.cells[j]).1 == old(self)@.cells[j].1
                    &&& final(self)@.cells[j].0.generation == if old(
                        self,
                    )@.cells[j].0.spec_is_filled() {
                        old(self)@.cells[j].0.generation + 1
                    } else {
                        old(self)@.cells[j].0.generation as int
                    }
                },
            final(self)@.free_list == filled_indices(old(self)@.cells).reverse() + old(
                self,
            )@.free_list,
    {
        let ghost m0 = old(self)@;
        let total = self.slots.total_cells();
        let mut n: usize = 0;
        proof {
            assert(m0.cells.take(0) =~= Seq::<(SlotMapKeyData, T)>::empty());
            assert(self@.free_list =~= filled_indices(m0.cells.take(0)).reverse() + m0.free_list);
        }
        while n < total
            invariant
                self.wf(),
                n <= total,
                total == m0.cells.len(),
                self@.cells.len() == m0.cells.len(),
                self@.free_list == filled_indices(m0.cells.take(n as int)).reverse()
                    + m0.free_list,
                forall|j: int|
                    0 <= j < n ==> {
                        &&& (#[trigger] self@.cells[j]).1 == m0.cells[j].1
                        &&& !self@.cells[j].0.spec_is_filled()
                        &&& self@.cells[j].0.generation == if m0.cells[j].0.spec_is_filled() {
                            m0.cells[j].0.generation + 1
                        } else {
                            m0.cells[j].0.generation as int
                        }
                    },
                forall|j: int| n <= j < m0.cells.len() ==> (#[trigger] self@.cells[j]) == m0.cells[j],
            decreases total - n,
        {
            let live = match self.slots.cell_at(n) {
                Some(cell) => cell.0.is_filled(),
                None => false,
            };
            proof {
                assert(m0.cells.take(n + 1).drop_last() =~= m0.cells.take(n as int));
                assert(m0.cells.take(n + 1).last() == m0.cells[n as int]);
            }
            if live {
                self.vacate_cell_at(n);
                proof {
                    lemma_reverse_push(filled_indices(m0.cells.take(n as int)), n as int);
                    assert(filled_indices(m0.cells.take(n + 1)) == filled_indices(
                        m0.cells.take(n as int),
                    ).push(n as int));
                    assert(self@.free_list =~= filled_indices(m0.cells.take(n + 1)).reverse()
                        + m0.free_list);
                }
            } else {
                proof {
                    assert(filled_indices(m0.cells.take(n + 1)) == filled_indices(
                        m0.cells.take(n as int),
                    ));
                }
            }
            n = n + 1;
        }
        proof {
            assert(m0.cells.take(total as int) =~= m0.cells);
            lemma_count_none_filled(self@.cells);
        }
    }

    /// Remove every item: the same sweep as `drain`.  Values stay resident,
    /// as after any removal, and every cell is ready for reuse.
    pub fn clear(&mut self)
        requires
            old(self).wf(),
        ensures
            final(self).wf(),
            final(self)@.cells.len() == old(self)@.cells.len(),
            final(self).spec_len() == 0,
            final(self)@.free_list == filled_indices(old(self)@.cells).reverse() + old(
                self,
            )@.free_list,
    {
        self.drain()
    }
}


impl<K: SlotMapKey<P>, P, T> Default for SlotMap<K, P, T> {
    /// The same fresh, empty map `new` builds.
    fn default() -> (r: Self)
        ensures
            r.wf(),
            r@ == empty_model::<T>(),
    {
        SlotMap::new()
    }
}

impl<K: SlotMapKey<P>, P, T: Clone> Clone for SlotMap<K, P, T> {
    /// A map of the same shape with every value cloned: same chunks, same
    /// cursor, same free list, same live count, every key still valid.
    fn clone(&self) -> (r: Self)
        ensures
            self.wf() ==> r.wf(),
            r@.next_open_slot == self@.next_open_slot,
            r@.free_list == self@.free_list,
            r@.cells.len() == self@.cells.len(),
            forall|j: int|
                0 <= j < self@.cells.len() ==> (#[trigger] r@.cells[j]).0 == self@.cells[j].0
                    && cloned::<T>(self@.cells[j].1, r@.cells[j].1),
    {
        let duplicate = |t: &T| -> (res: T)
            ensures
                cloned::<T>(*t, res),
            { t.clone() };
        let r = self.map(&duplicate);
        proof {
            assert forall|j: int| 0 <= j < self@.cells.len() implies cloned::<T>(
                (#[trigger] self@.cells[j]).1,
                r@.cells[j].1,
            ) by {
                assert(duplicate.ensures((&self@.cells[j].1,), r@.cells[j].1));
            }
        }
        r
    }
}

} // verus!
