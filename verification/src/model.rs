//! The mathematical model of the slot map.
//!
//! A map state is modelled as the flattened sequence of all its initialized
//! cells (sealed chunks in order, then the open chunk up to its fill cursor),
//! together with the free-list head key and the free list itself: the
//! sequence of flat cell positions of all vacant cells, front of the list
//! first.  The executable operations promise that their effect on this model
//! equals the transition functions defined here, and the laws about the map
//! are proved over these transitions.

use crate::slot_map_key_data::SlotMapKeyData;
use crate::slot_map_key_data::MAX_GENERATION;
use vstd::arithmetic::div_mod::lemma_fundamental_div_mod;
use vstd::arithmetic::div_mod::lemma_fundamental_div_mod_converse;
use vstd::prelude::*;

verus! {

/// Abstract state of a slot map holding values of type `T`.
pub ghost struct MapModel<T> {
    /// Every initialized cell, in flat order: the cell at chunk `c`, offset
    /// `i` sits at position `c * chunk_size() + i`.
    pub cells: Seq<(SlotMapKeyData, T)>,
    /// The free-list head: either the coordinates of the first vacant cell,
    /// or the first never-initialized coordinate (then the list is empty).
    pub next_open_slot: SlotMapKeyData,
    /// Flat positions of all vacant cells, most recently vacated first.
    pub free_list: Seq<int>,
}

/// Largest number of cells the map can address: the chunk index must stay
/// within its 32 bits even after the advance that follows an insertion.
pub open spec fn max_capacity() -> int {
    crate::chunk_size() * 0xFFFF_FFFF
}

/// Number of occupied cells: those whose stored generation is even.
pub open spec fn count_filled<T>(cells: Seq<(SlotMapKeyData, T)>) -> nat
    decreases cells.len(),
{
    if cells.len() == 0 {
        0
    } else {
        count_filled(cells.drop_last()) + if cells.last().0.spec_is_filled() {
            1nat
        } else {
            0nat
        }
    }
}

/// Flat positions of all occupied cells, in increasing order.
pub open spec fn filled_indices<T>(cells: Seq<(SlotMapKeyData, T)>) -> Seq<int>
    decreases cells.len(),
{
    if cells.len() == 0 {
        Seq::empty()
    } else {
        let prefix = filled_indices(cells.drop_last());
        if cells.last().0.spec_is_filled() {
            prefix.push(cells.len() - 1)
        } else {
            prefix
        }
    }
}

/// There are as many positions of occupied cells as occupied cells.
pub proof fn lemma_count_is_filled_indices_len<T>(cells: Seq<(SlotMapKeyData, T)>)
    ensures
        filled_indices(cells).len() == count_filled(cells),
    decreases cells.len(),
{
    if cells.len() > 0 {
        lemma_count_is_filled_indices_len(cells.drop_last());
    }
}

/// The positions of occupied cells are exactly the positions at which the
/// stored generation is even, listed in increasing order.
pub proof fn lemma_filled_indices_props<T>(cells: Seq<(SlotMapKeyData, T)>)
    ensures
        forall|p: int|
            0 <= p < filled_indices(cells).len() ==> 0 <= #[trigger] filled_indices(cells)[p]
                < cells.len() && cells[filled_indices(cells)[p]].0.spec_is_filled(),
        forall|p: int, q: int|
            0 <= p < q < filled_indices(cells).len() ==> filled_indices(cells)[p]
                < filled_indices(cells)[q],
        forall|j: int|
            0 <= j < cells.len() && cells[j].0.spec_is_filled() ==> filled_indices(
                cells,
            ).contains(j),
    decreases cells.len(),
{
    if cells.len() > 0 {
        let prefix = cells.drop_last();
        lemma_filled_indices_props(prefix);
        assert(forall|j: int| 0 <= j < prefix.len() ==> prefix[j] == cells[j]);
        assert forall|j: int| 0 <= j < cells.len() && cells[j].0.spec_is_filled() implies
            filled_indices(cells).contains(j) by {
            if j < cells.len() - 1 {
                assert(filled_indices(prefix).contains(j));
                let p = choose|p: int|
                    0 <= p < filled_indices(prefix).len() && filled_indices(prefix)[p] == j;
                assert(filled_indices(cells)[p] == j);
            } else {
                assert(filled_indices(cells).last() == j);
            }
        }
    }
}

/// How the count of occupied cells changes when one more cell appears.
pub proof fn lemma_count_filled_push<T>(cells: Seq<(SlotMapKeyData, T)>, cell: (SlotMapKeyData, T))
    ensures
        count_filled(cells.push(cell)) == count_filled(cells) + if cell.0.spec_is_filled() {
            1int
        } else {
            0int
        },
{
    assert(cells.push(cell).drop_last() =~= cells);
}

/// How the count of occupied cells changes when one cell is overwritten.
pub broadcast proof fn lemma_count_filled_update<T>(
    cells: Seq<(SlotMapKeyData, T)>,
    j: int,
    cell: (SlotMapKeyData, T),
)
    requires
        0 <= j < cells.len(),
    ensures
        #[trigger] count_filled(cells.update(j, cell)) == count_filled(cells) - (if cells[j].0.spec_is_filled() {
            1int
        } else {
            0int
        }) + (if cell.0.spec_is_filled() {
            1int
        } else {
            0int
        }),
    decreases cells.len(),
{
    let updated = cells.update(j, cell);
    if j == cells.len() - 1 {
        assert(updated.drop_last() =~= cells.drop_last());
    } else {
        assert(updated.drop_last() =~= cells.drop_last().update(j, cell));
        lemma_count_filled_update(cells.drop_last(), j, cell);
    }
}

/// A map where every cell is occupied holds as many values as cells.
pub proof fn lemma_count_all_filled<T>(cells: Seq<(SlotMapKeyData, T)>)
    requires
        forall|j: int| 0 <= j < cells.len() ==> (#[trigger] cells[j]).0.spec_is_filled(),
    ensures
        count_filled(cells) == cells.len(),
    decreases cells.len(),
{
    if cells.len() > 0 {
        lemma_count_all_filled(cells.drop_last());
    }
}

/// The count of occupied cells never exceeds the number of cells.
pub proof fn lemma_count_filled_le_len<T>(cells: Seq<(SlotMapKeyData, T)>)
    ensures
        count_filled(cells) <= cells.len(),
    decreases cells.len(),
{
    if cells.len() > 0 {
        lemma_count_filled_le_len(cells.drop_last());
    }
}

/// A map with at least one occupied cell holds at least one value.
pub proof fn lemma_count_filled_pos<T>(cells: Seq<(SlotMapKeyData, T)>, j: int)
    requires
        0 <= j < cells.len(),
        cells[j].0.spec_is_filled(),
    ensures
        count_filled(cells) >= 1,
    decreases cells.len(),
{
    if j < cells.len() - 1 {
        lemma_count_filled_pos(cells.drop_last(), j);
    }
}

/// A map with no occupied cell holds no value.
pub proof fn lemma_count_none_filled<T>(cells: Seq<(SlotMapKeyData, T)>)
    requires
        forall|j: int| 0 <= j < cells.len() ==> !(#[trigger] cells[j]).0.spec_is_filled(),
    ensures
        count_filled(cells) == 0,
    decreases cells.len(),
{
    if cells.len() > 0 {
        lemma_count_none_filled(cells.drop_last());
    }
}

/// Reversing after appending puts the appended element in front.
pub proof fn lemma_reverse_push<A>(s: Seq<A>, x: A)
    ensures
        s.push(x).reverse() == seq![x] + s.reverse(),
{
    assert(s.push(x).reverse() =~= seq![x] + s.reverse());
}

/// A flat position decomposes uniquely into a chunk index and an offset.
pub proof fn lemma_flat_coord(c: int, i: int)
    requires
        0 <= c,
        0 <= i < crate::chunk_size(),
    ensures
        (c * crate::chunk_size() + i) / crate::chunk_size() == c,
        (c * crate::chunk_size() + i) % crate::chunk_size() == i,
{
    lemma_fundamental_div_mod_converse(c * crate::chunk_size() + i, crate::chunk_size(), c, i);
}

/// Where a lookup by a given key lands, in a map of `len` initialized cells:
/// a key naming a sealed chunk resolves within that chunk; any other key is
/// routed to the open chunk, and resolves only below the fill cursor.
pub open spec fn slot_index_for_len(len: int, key: SlotMapKeyData) -> Option<int> {
    let sealed = len / crate::chunk_size();
    let open = len % crate::chunk_size();
    if key.chunk_index < sealed {
        if key.index_in_chunk < crate::chunk_size() {
            Some(key.index_of())
        } else {
            None
        }
    } else {
        if key.index_in_chunk < open {
            Some(sealed * crate::chunk_size() + key.index_in_chunk)
        } else {
            None
        }
    }
}

/// A key with in-chunk coordinates that names one of the first `len` cells
/// resolves to exactly that cell.
pub proof fn lemma_slot_index_canonical(len: int, key: SlotMapKeyData)
    requires
        0 <= len,
        key.coord_ok(),
        0 <= key.index_of() < len,
    ensures
        slot_index_for_len(len, key) == Some(key.index_of()),
{
    let cs = crate::chunk_size();
    let sealed = len / cs;
    let open = len % cs;
    lemma_fundamental_div_mod(len, cs);
    let c = key.chunk_index as int;
    let i = key.index_in_chunk as int;
    if c > sealed {
        assert(c * cs >= (sealed + 1) * cs) by (nonlinear_arith)
            requires
                c >= sealed + 1,
                cs > 0,
        ;
        assert(false);
    }
    if c == sealed {
        assert(i < open);
        assert(sealed * cs + i == key.index_of());
    }
}

/// The sentinel key: a key with in-chunk coordinates whose flat position is
/// exactly `len` names the first never-initialized cell, and resolves to
/// nothing.
pub proof fn lemma_slot_index_sentinel(len: int, key: SlotMapKeyData)
    requires
        0 <= len,
        key.coord_ok(),
        key.index_of() == len,
    ensures
        slot_index_for_len(len, key).is_none(),
        key.chunk_index == len / crate::chunk_size(),
        key.index_in_chunk == len % crate::chunk_size(),
{
    lemma_flat_coord(key.chunk_index as int, key.index_in_chunk as int);
}

/// Every resolved position is a real cell.
pub proof fn lemma_slot_index_in_range(len: int, key: SlotMapKeyData)
    requires
        0 <= len,
        slot_index_for_len(len, key).is_some(),
    ensures
        0 <= slot_index_for_len(len, key).unwrap() < len,
{
    let cs = crate::chunk_size();
    let sealed = len / cs;
    let open = len % cs;
    lemma_fundamental_div_mod(len, cs);
    let c = key.chunk_index as int;
    let i = key.index_in_chunk as int;
    if c < sealed {
        assert(c * cs + i < (c + 1) * cs) by (nonlinear_arith)
            requires
                i < cs,
        ;
        assert((c + 1) * cs <= sealed * cs) by (nonlinear_arith)
            requires
                c + 1 <= sealed,
                cs > 0,
        ;
    }
}

/// Well-formedness of a model: all stored keys fit their bit widths; an
/// occupied cell stores its own coordinates; the free list holds exactly the
/// vacant cells, each one (and finally the head key) storing the coordinates
/// of the next, and the last one storing the first never-initialized
/// coordinate.
pub open spec fn wf_model<T>(m: MapModel<T>) -> bool {
    &&& m.cells.len() <= max_capacity()
    &&& forall|j: int| 0 <= j < m.cells.len() ==> (#[trigger] m.cells[j]).0.wf()
    &&& forall|j: int|
        0 <= j < m.cells.len() && (#[trigger] m.cells[j]).0.spec_is_filled()
            ==> m.cells[j].0.index_of() == j
    &&& m.next_open_slot.coord_ok()
    &&& m.next_open_slot.generation == 0
    &&& m.next_open_slot.index_of() == if m.free_list.len() > 0 {
        m.free_list[0]
    } else {
        m.cells.len() as int
    }
    &&& forall|p: int|
        0 <= p < m.free_list.len() ==> 0 <= #[trigger] m.free_list[p] < m.cells.len()
            && !m.cells[m.free_list[p]].0.spec_is_filled()
    &&& forall|p: int|
        0 <= p < m.free_list.len() - 1 ==> m.cells[#[trigger] m.free_list[p]].0.index_of()
            == m.free_list[p + 1]
    &&& m.free_list.len() > 0 ==> m.cells[m.free_list[m.free_list.len() - 1]].0.index_of()
        == m.cells.len()
    &&& m.free_list.no_duplicates()
    &&& forall|j: int|
        0 <= j < m.cells.len() && !(#[trigger] m.cells[j]).0.spec_is_filled()
            ==> m.free_list.contains(j)
}

/// What a lookup by `key` finds: the value of the cell the key's coordinates
/// resolve to, provided the cell is occupied at exactly the key's generation.
pub open spec fn spec_get<T>(m: MapModel<T>, key: SlotMapKeyData) -> Option<T> {
    match slot_index_for_len(m.cells.len() as int, key) {
        Some(j) => {
            if m.cells[j].0.spec_is_filled() && m.cells[j].0.generation == key.generation {
                Some(m.cells[j].1)
            } else {
                None
            }
        },
        None => None,
    }
}

/// The cell a removal by `key` would vacate: the resolved cell, provided it
/// is occupied at exactly the key's generation.  Identical to the validity
/// check of a lookup.
pub open spec fn spec_remove_hits<T>(m: MapModel<T>, key: SlotMapKeyData) -> Option<int> {
    match slot_index_for_len(m.cells.len() as int, key) {
        Some(j) => {
            if m.cells[j].0.spec_is_filled() && m.cells[j].0.generation == key.generation {
                Some(j)
            } else {
                None
            }
        },
        None => None,
    }
}

/// Whether the next insertion reuses a vacated cell (the free-list head
/// names an initialized cell) or appends a fresh one.
pub open spec fn spec_reuses<T>(m: MapModel<T>) -> bool {
    m.next_open_slot.index_of() < m.cells.len()
}

/// The key an insertion hands back: for a reused cell, the cell's own
/// coordinates at its advanced (even again) generation; for a fresh cell,
/// the head key itself at generation zero.
pub open spec fn spec_insert_key<T>(m: MapModel<T>) -> SlotMapKeyData {
    if spec_reuses(m) {
        let j = m.next_open_slot.index_of();
        SlotMapKeyData {
            index_in_chunk: m.next_open_slot.index_in_chunk,
            chunk_index: m.next_open_slot.chunk_index,
            generation: SlotMapKeyData::spec_wrap_inc(m.cells[j].0.generation),
        }
    } else {
        m.next_open_slot
    }
}

/// The state after inserting `value`.  A reused cell is overwritten with the
/// new value under the returned key, and the head moves to the link the cell
/// stored; a fresh cell is appended under the head key, and the head
/// advances one coordinate.
pub open spec fn spec_insert_model<T>(m: MapModel<T>, value: T) -> MapModel<T> {
    if spec_reuses(m) {
        let j = m.next_open_slot.index_of();
        MapModel {
            cells: m.cells.update(j, (spec_insert_key(m), value)),
            next_open_slot: m.next_open_slot.spec_with_coords_of(m.cells[j].0),
            free_list: m.free_list.drop_first(),
        }
    } else {
        MapModel {
            cells: m.cells.push((m.next_open_slot, value)),
            next_open_slot: m.next_open_slot.spec_increment_coordinates(),
            free_list: m.free_list,
        }
    }
}

/// The state after removing by `key`, with the vacated cell's resident
/// value replaced by `value`.  When the key is valid, the cell's generation
/// advances (now odd: vacant), its coordinate fields take over the old
/// head's coordinates — the vacated cell becomes the new head of the free
/// list — and the head takes the cell's.  The caller of a removal receives a
/// mutable reference to the resident value, so the state it leaves behind is
/// this one at whatever value it wrote last.
pub open spec fn spec_remove_model_with<T>(m: MapModel<T>, key: SlotMapKeyData, value: T) -> MapModel<T> {
    match spec_remove_hits(m, key) {
        Some(j) => MapModel {
            cells: m.cells.update(
                j,
                (
                    SlotMapKeyData {
                        index_in_chunk: m.next_open_slot.index_in_chunk,
                        chunk_index: m.next_open_slot.chunk_index,
                        generation: SlotMapKeyData::spec_wrap_inc(m.cells[j].0.generation),
                    },
                    value,
                ),
            ),
            next_open_slot: m.next_open_slot.spec_with_coords_of(m.cells[j].0),
            free_list: seq![j] + m.free_list,
        },
        None => m,
    }
}

/// The state after removing by `key`, the resident value untouched.
pub open spec fn spec_remove_model<T>(m: MapModel<T>, key: SlotMapKeyData) -> MapModel<T> {
    match spec_remove_hits(m, key) {
        Some(j) => spec_remove_model_with(m, key, m.cells[j].1),
        None => m,
    }
}

/// The state after a mutable lookup by `key` whose caller wrote `value`:
/// only the resolved cell's value changes, and only when the key is valid.
pub open spec fn spec_value_updated<T>(m: MapModel<T>, key: SlotMapKeyData, value: T) -> MapModel<T> {
    match spec_remove_hits(m, key) {
        Some(j) => MapModel {
            cells: m.cells.update(j, (m.cells[j].0, value)),
            next_open_slot: m.next_open_slot,
            free_list: m.free_list,
        },
        None => m,
    }
}

/// The model of a freshly created map: no cells, the head at the first
/// coordinate, the free list empty.
pub open spec fn empty_model<T>() -> MapModel<T> {
    MapModel {
        cells: Seq::empty(),
        next_open_slot: SlotMapKeyData { index_in_chunk: 0, chunk_index: 0, generation: 0 },
        free_list: Seq::empty(),
    }
}

/// Overwriting a cell of the left part of a concatenation overwrites that
/// cell of the whole.
pub broadcast proof fn lemma_seq_add_update_left<A>(a: Seq<A>, b: Seq<A>, j: int, x: A)
    requires
        0 <= j < a.len(),
    ensures
        #[trigger] (a.update(j, x) + b) == (a + b).update(j, x),
{
    assert(a.update(j, x) + b =~= (a + b).update(j, x));
}

/// Overwriting a cell of the right part of a concatenation overwrites that
/// cell of the whole, shifted by the length of the left part.
pub broadcast proof fn lemma_seq_add_update_right<A>(a: Seq<A>, b: Seq<A>, j: int, x: A)
    requires
        0 <= j < b.len(),
    ensures
        #[trigger] (a + b.update(j, x)) == (a + b).update(a.len() + j, x),
{
    assert(a + b.update(j, x) =~= (a + b).update(a.len() + j, x));
}

/// Appending to the right part of a concatenation appends to the whole.
pub broadcast proof fn lemma_seq_add_push<A>(a: Seq<A>, b: Seq<A>, x: A)
    ensures
        #[trigger] (a + b.push(x)) == (a + b).push(x),
{
    assert(a + b.push(x) =~= (a + b).push(x));
}

/// The empty model is well formed.
pub proof fn lemma_empty_model_wf<T>()
    ensures
        wf_model(empty_model::<T>()),
        count_filled(empty_model::<T>().cells) == 0,
{
}

/// In a well-formed model an insertion reuses a cell exactly when the free
/// list is not empty, and then it reuses the cell at its front.
pub proof fn lemma_reuses_iff_free_list<T>(m: MapModel<T>)
    requires
        wf_model(m),
    ensures
        spec_reuses(m) <==> m.free_list.len() > 0,
        spec_reuses(m) ==> m.next_open_slot.index_of() == m.free_list[0],
{
}

/// Inserting preserves well-formedness; the new key is valid, occupied, and
/// resolves to the inserted value; the count of occupied cells grows by one;
/// a reuse consumes the front of the free list, a fresh insertion appends
/// one cell.
pub proof fn lemma_insert_preserves_wf<T>(m: MapModel<T>, value: T)
    requires
        wf_model(m),
        m.cells.len() < max_capacity(),
    ensures
        wf_model(spec_insert_model(m, value)),
        count_filled(spec_insert_model(m, value).cells) == count_filled(m.cells) + 1,
        spec_insert_key(m).wf(),
        spec_insert_key(m).spec_is_filled(),
        spec_insert_key(m).index_of() == if spec_reuses(m) {
            m.next_open_slot.index_of()
        } else {
            m.cells.len() as int
        },
        spec_insert_model(m, value).cells.len() == if spec_reuses(m) {
            m.cells.len() as int
        } else {
            m.cells.len() + 1int
        },
        spec_insert_model(m, value).free_list == if spec_reuses(m) {
            m.free_list.drop_first()
        } else {
            m.free_list
        },
        spec_get(spec_insert_model(m, value), spec_insert_key(m)) == Some(value),
{
    let m2 = spec_insert_model(m, value);
    let k = spec_insert_key(m);
    lemma_reuses_iff_free_list(m);
    if spec_reuses(m) {
        let j = m.next_open_slot.index_of();
        let fl = m.free_list;
        assert(j == fl[0]);
        assert(0 <= j < m.cells.len() && !m.cells[j].0.spec_is_filled());
        let stored = m.cells[j].0;
        let g = stored.generation;
        assert(g % 2 == 1);
        assert(g % 2 == 0 || g % 2 == 1) by {
            assert(g % 2 < 2);
        }
        // The advanced generation is even again, and still fits its width.
        assert(k.generation == SlotMapKeyData::spec_wrap_inc(g));
        assert(k.spec_is_filled());
        assert(k.gen_ok());
        assert(k.coord_ok());
        assert(k.index_of() == j);
        lemma_count_filled_update(m.cells, j, (k, value));
        // The new head takes over the link the reused cell stored.
        assert(m2.next_open_slot.index_of() == stored.index_of());
        assert(m2.free_list =~= fl.drop_first());
        assert forall|p: int| 0 <= p < m2.free_list.len() implies 0 <= #[trigger] m2.free_list[p]
            < m2.cells.len() && !m2.cells[m2.free_list[p]].0.spec_is_filled() by {
            assert(m2.free_list[p] == fl[p + 1]);
            assert(fl[p + 1] != fl[0]);
        }
        assert forall|p: int| 0 <= p < m2.free_list.len() - 1 implies m2.cells[
            #[trigger] m2.free_list[p]
        ].0.index_of() == m2.free_list[p + 1] by {
            assert(fl[p + 1] != fl[0]);
            assert(m.cells[fl[p + 1]].0.index_of() == fl[p + 2]);
        }
        if m2.free_list.len() > 0 {
            assert(m2.free_list[m2.free_list.len() - 1] == fl[fl.len() - 1]);
            assert(fl[fl.len() - 1] != fl[0]);
        } else {
            assert(fl.len() == 1);
            assert(m2.next_open_slot.index_of() == m.cells.len());
        }
        assert forall|p: int, q: int|
            0 <= p < m2.free_list.len() && 0 <= q < m2.free_list.len() && p != q implies
            m2.free_list[p] != m2.free_list[q] by {
            assert(m2.free_list[p] == fl[p + 1] && m2.free_list[q] == fl[q + 1]);
        }
        assert forall|j2: int|
            0 <= j2 < m2.cells.len() && !(#[trigger] m2.cells[j2]).0.spec_is_filled() implies
            m2.free_list.contains(j2) by {
            assert(j2 != j);
            assert(!m.cells[j2].0.spec_is_filled());
            assert(fl.contains(j2));
            let p = choose|p: int| 0 <= p < fl.len() && fl[p] == j2;
            assert(p != 0);
            assert(m2.free_list[p - 1] == j2);
        }
        lemma_slot_index_canonical(m2.cells.len() as int, k);
    } else {
        assert(m.free_list.len() == 0);
        let n = m.cells.len() as int;
        assert(m.next_open_slot.index_of() == n);
        assert(k == m.next_open_slot);
        lemma_count_filled_push(m.cells, (k, value));
        // The head's chunk index is far from its ceiling, so the advance
        // does not wrap it.
        let c = m.next_open_slot.chunk_index as int;
        assert(c * crate::chunk_size() <= n);
        assert(c < 0xFFFF_FFFF);
        assert(m2.next_open_slot == m.next_open_slot.spec_increment_coordinates());
        assert(m2.next_open_slot.index_of() == n + 1);
        assert(m2.cells.len() == n + 1);
        assert(forall|j2: int| 0 <= j2 < n ==> m2.cells[j2] == m.cells[j2]);
        assert(m2.cells[n] == (k, value));
        assert(m2.free_list.len() == 0);
        assert forall|j2: int|
            0 <= j2 < m2.cells.len() && !(#[trigger] m2.cells[j2]).0.spec_is_filled() implies
            m2.free_list.contains(j2) by {
            if j2 < n {
                assert(m.free_list.contains(j2));
            }
        }
        lemma_slot_index_canonical(m2.cells.len() as int, k);
    }
}

/// Removing preserves well-formedness.  A hit vacates exactly the resolved
/// cell (the count drops by one, the cell's position becomes the new front
/// of the free list) and the removed key immediately stops resolving: a
/// lookup and a second removal by it both find nothing.  A miss changes
/// nothing.
pub proof fn lemma_remove_preserves_wf<T>(m: MapModel<T>, key: SlotMapKeyData)
    requires
        wf_model(m),
    ensures
        wf_model(spec_remove_model(m, key)),
        spec_remove_model(m, key).cells.len() == m.cells.len(),
        spec_remove_hits(m, key).is_some() ==> {
            let j = spec_remove_hits(m, key).unwrap();
            &&& 0 <= j < m.cells.len()
            &&& count_filled(spec_remove_model(m, key).cells) == count_filled(m.cells) - 1
            &&& spec_get(spec_remove_model(m, key), key).is_none()
            &&& spec_remove_hits(spec_remove_model(m, key), key).is_none()
            &&& spec_remove_model(m, key).free_list == seq![j] + m.free_list
            &&& spec_remove_model(m, key).next_open_slot.index_of() == j
        },
        spec_remove_hits(m, key).is_none() ==> spec_remove_model(m, key) == m,
{
    let m2 = spec_remove_model(m, key);
    if spec_remove_hits(m, key).is_some() {
        let j = spec_remove_hits(m, key).unwrap();
        lemma_slot_index_in_range(m.cells.len() as int, key);
        let stored = m.cells[j].0;
        assert(stored.spec_is_filled() && stored.index_of() == j);
        let g = stored.generation;
        // An even generation is strictly below the odd maximum, so the
        // advance cannot wrap.
        assert(g < MAX_GENERATION) by {
            assert(g % 2 == 0 && g <= MAX_GENERATION);
        }
        let newkey = m2.cells[j].0;
        assert(newkey.generation == g + 1);
        assert(!newkey.spec_is_filled());
        assert(newkey.gen_ok());
        assert(newkey.coord_ok());
        lemma_count_filled_update(
            m.cells,
            j,
            (
                SlotMapKeyData {
                    index_in_chunk: m.next_open_slot.index_in_chunk,
                    chunk_index: m.next_open_slot.chunk_index,
                    generation: SlotMapKeyData::spec_wrap_inc(g),
                },
                m.cells[j].1,
            ),
        );
        let fl = m.free_list;
        let fl2 = m2.free_list;
        assert(fl2 == seq![j] + fl);
        assert(!fl.contains(j));
        assert(fl2[0] == j);
        assert(forall|p: int| 1 <= p < fl2.len() ==> fl2[p] == fl[p - 1]);
        assert(m2.next_open_slot.index_of() == j);
        // The vacated cell stores the old head's coordinates, continuing the
        // chain at the old front (or at the first never-initialized cell).
        assert(m2.cells[j].0.index_of() == m.next_open_slot.index_of());
        assert forall|p: int| 0 <= p < fl2.len() implies 0 <= #[trigger] fl2[p] < m2.cells.len()
            && !m2.cells[fl2[p]].0.spec_is_filled() by {
            if p >= 1 {
                assert(fl2[p] == fl[p - 1]);
                assert(fl[p - 1] != j);
            }
        }
        assert forall|p: int| 0 <= p < fl2.len() - 1 implies m2.cells[
            #[trigger] fl2[p]
        ].0.index_of() == fl2[p + 1] by {
            if p == 0 {
                assert(m2.cells[j].0.index_of() == fl[0]);
            } else {
                assert(fl2[p] == fl[p - 1] && fl[p - 1] != j);
                assert(m.cells[fl[p - 1]].0.index_of() == fl[p]);
            }
        }
        if fl2.len() > 1 {
            assert(fl2[fl2.len() - 1] == fl[fl.len() - 1]);
            assert(fl[fl.len() - 1] != j);
        } else {
            assert(m2.cells[j].0.index_of() == m.cells.len());
        }
        assert forall|p: int, q: int|
            0 <= p < fl2.len() && 0 <= q < fl2.len() && p != q implies fl2[p] != fl2[q] by {
            if p >= 1 && q >= 1 {
                assert(fl2[p] == fl[p - 1] && fl2[q] == fl[q - 1]);
            }
        }
        assert forall|j2: int|
            0 <= j2 < m2.cells.len() && !(#[trigger] m2.cells[j2]).0.spec_is_filled() implies
            fl2.contains(j2) by {
            if j2 == j {
                assert(fl2[0] == j2);
            } else {
                assert(!m.cells[j2].0.spec_is_filled());
                assert(fl.contains(j2));
                let p = choose|p: int| 0 <= p < fl.len() && fl[p] == j2;
                assert(fl2[p + 1] == j2);
            }
        }
        assert(m2.cells[j].0.generation != key.generation);
    }
}


/// Replacing the value of one cell, keeping its key, preserves
/// well-formedness and the count of occupied cells: no invariant of the map
/// reads the values.
pub proof fn lemma_wf_model_value_update<T>(m: MapModel<T>, j: int, value: T)
    requires
        wf_model(m),
        0 <= j < m.cells.len(),
    ensures
        wf_model(
            MapModel {
                cells: m.cells.update(j, (m.cells[j].0, value)),
                next_open_slot: m.next_open_slot,
                free_list: m.free_list,
            },
        ),
        count_filled(m.cells.update(j, (m.cells[j].0, value))) == count_filled(m.cells),
{
    let cells2 = m.cells.update(j, (m.cells[j].0, value));
    assert(forall|x: int| 0 <= x < cells2.len() ==> (#[trigger] cells2[x]).0 == m.cells[x].0);
    lemma_count_filled_update(m.cells, j, (m.cells[j].0, value));
}

/// A mutable lookup preserves well-formedness whatever value its caller
/// writes; it changes no key, no link and no count, and afterwards the same
/// key resolves to the written value.
pub proof fn lemma_value_updated_wf<T>(m: MapModel<T>, key: SlotMapKeyData)
    requires
        wf_model(m),
    ensures
        forall|v: T| wf_model(#[trigger] spec_value_updated(m, key, v)),
        forall|v: T|
            (#[trigger] spec_value_updated(m, key, v)).cells.len() == m.cells.len()
                && spec_value_updated(m, key, v).next_open_slot == m.next_open_slot
                && spec_value_updated(m, key, v).free_list == m.free_list
                && count_filled(spec_value_updated(m, key, v).cells) == count_filled(m.cells),
        spec_remove_hits(m, key).is_some() ==> forall|v: T|
            spec_get(#[trigger] spec_value_updated(m, key, v), key) == Some(v),
{
    if spec_remove_hits(m, key).is_some() {
        let j = spec_remove_hits(m, key).unwrap();
        lemma_slot_index_in_range(m.cells.len() as int, key);
        assert forall|v: T| wf_model(#[trigger] spec_value_updated(m, key, v)) && spec_value_updated(
            m,
            key,
            v,
        ).cells.len() == m.cells.len() && count_filled(spec_value_updated(m, key, v).cells)
            == count_filled(m.cells) && spec_get(spec_value_updated(m, key, v), key) == Some(
            v,
        ) by {
            lemma_wf_model_value_update(m, j, v);
        }
    }
}

/// A removal preserves well-formedness whatever value its caller leaves in
/// the vacated cell.  A hit vacates exactly the resolved cell: the count
/// drops by one, the cell's position becomes the new front of the free list,
/// and the removed key immediately stops resolving, so a lookup and a second
/// removal by it both find nothing.  A miss changes nothing.
pub proof fn lemma_remove_with_wf<T>(m: MapModel<T>, key: SlotMapKeyData)
    requires
        wf_model(m),
    ensures
        forall|v: T| wf_model(#[trigger] spec_remove_model_with(m, key, v)),
        forall|v: T| (#[trigger] spec_remove_model_with(m, key, v)).cells.len() == m.cells.len(),
        spec_remove_hits(m, key).is_some() ==> {
            let j = spec_remove_hits(m, key).unwrap();
            &&& 0 <= j < m.cells.len()
            &&& m.cells[j].0.spec_is_filled()
            &&& m.cells[j].0.generation == key.generation
            &&& forall|v: T|
                count_filled((#[trigger] spec_remove_model_with(m, key, v)).cells) == count_filled(
                    m.cells,
                ) - 1
            &&& forall|v: T|
                spec_get(#[trigger] spec_remove_model_with(m, key, v), key).is_none()
                    && spec_remove_hits(spec_remove_model_with(m, key, v), key).is_none()
            &&& forall|v: T|
                (#[trigger] spec_remove_model_with(m, key, v)).free_list == seq![j] + m.free_list
                    && spec_remove_model_with(m, key, v).next_open_slot
                    == m.next_open_slot.spec_with_coords_of(m.cells[j].0)
        },
        spec_remove_hits(m, key).is_none() ==> forall|v: T|
            #[trigger] spec_remove_model_with(m, key, v) == m,
{
    lemma_remove_preserves_wf(m, key);
    if spec_remove_hits(m, key).is_some() {
        let j = spec_remove_hits(m, key).unwrap();
        lemma_slot_index_in_range(m.cells.len() as int, key);
        let m0 = spec_remove_model(m, key);
        assert forall|v: T| wf_model(#[trigger] spec_remove_model_with(m, key, v)) && count_filled(
            spec_remove_model_with(m, key, v).cells,
        ) == count_filled(m.cells) - 1 && spec_get(spec_remove_model_with(m, key, v), key).is_none()
            && spec_remove_hits(spec_remove_model_with(m, key, v), key).is_none() by {
            let mv = spec_remove_model_with(m, key, v);
            assert(mv.cells =~= m0.cells.update(j, (m0.cells[j].0, v)));
            lemma_wf_model_value_update(m0, j, v);
            assert(mv.cells[j].0.generation != key.generation);
        }
    }
}


/// Well-formedness reads no cell's value: a model with the same keys, the
/// same head and the same free list as a well-formed one is well formed.
pub broadcast proof fn lemma_wf_model_same_keys<T>(m1: MapModel<T>, m2: MapModel<T>)
    requires
        #[trigger] wf_model(m1),
        m2.cells.len() == m1.cells.len(),
        forall|x: int| 0 <= x < m2.cells.len() ==> (#[trigger] m2.cells[x]).0 == m1.cells[x].0,
        m2.next_open_slot == m1.next_open_slot,
        m2.free_list == m1.free_list,
    ensures
        #[trigger] wf_model(m2),
{
    assert forall|j: int|
        0 <= j < m2.cells.len() && !(#[trigger] m2.cells[j]).0.spec_is_filled() implies
        m2.free_list.contains(j) by {
        assert(!m1.cells[j].0.spec_is_filled());
    }
    assert forall|p: int| 0 <= p < m2.free_list.len() implies 0 <= #[trigger] m2.free_list[p]
        < m2.cells.len() && !m2.cells[m2.free_list[p]].0.spec_is_filled() by {
        assert(m1.free_list[p] == m2.free_list[p]);
    }
    assert forall|p: int| 0 <= p < m2.free_list.len() - 1 implies m2.cells[
        #[trigger] m2.free_list[p]
    ].0.index_of() == m2.free_list[p + 1] by {
        assert(m1.cells[m1.free_list[p]].0.index_of() == m1.free_list[p + 1]);
    }
    if m2.free_list.len() > 0 {
        assert(m1.cells[m1.free_list[m1.free_list.len() - 1]].0.index_of() == m1.cells.len());
    }
}


/// Two keys with in-chunk coordinates, the same flat position and the same
/// generation are the same key.
pub proof fn lemma_coord_unique(k1: SlotMapKeyData, k2: SlotMapKeyData)
    requires
        k1.coord_ok(),
        k2.coord_ok(),
        k1.index_of() == k2.index_of(),
        k1.generation == k2.generation,
    ensures
        k1 == k2,
{
    assert(k1.chunk_index == k2.chunk_index && k1.index_in_chunk == k2.index_in_chunk) by {
        lemma_flat_coord(k1.chunk_index as int, k1.index_in_chunk as int);
        lemma_flat_coord(k2.chunk_index as int, k2.index_in_chunk as int);
    }
}

/// The positions of occupied cells of a prefix are a prefix of the
/// positions of occupied cells.
pub proof fn lemma_filled_indices_take<T>(cells: Seq<(SlotMapKeyData, T)>, t: int)
    requires
        0 <= t <= cells.len(),
    ensures
        filled_indices(cells.take(t)).len() <= filled_indices(cells).len(),
        forall|p: int|
            0 <= p < filled_indices(cells.take(t)).len() ==> #[trigger] filled_indices(
                cells.take(t),
            )[p] == filled_indices(cells)[p],
    decreases cells.len(),
{
    if t == cells.len() {
        assert(cells.take(t) =~= cells);
    } else {
        assert(cells.take(t) =~= cells.drop_last().take(t));
        lemma_filled_indices_take(cells.drop_last(), t);
    }
}

/// The count of occupied cells reads only the keys.
pub proof fn lemma_count_filled_same_keys<T, R>(
    c1: Seq<(SlotMapKeyData, T)>,
    c2: Seq<(SlotMapKeyData, R)>,
)
    requires
        c1.len() == c2.len(),
        forall|x: int| 0 <= x < c1.len() ==> (#[trigger] c1[x]).0 == c2[x].0,
    ensures
        count_filled(c1) == count_filled(c2),
    decreases c1.len(),
{
    if c1.len() > 0 {
        assert(forall|x: int|
            0 <= x < c1.len() - 1 ==> (#[trigger] c1.drop_last()[x]).0 == c2.drop_last()[x].0);
        lemma_count_filled_same_keys(c1.drop_last(), c2.drop_last());
        assert(c1.last().0 == c2.last().0);
    }
}


/// Well-formedness reads no cell's value, whatever the value type: a model
/// over another value type with the same keys, the same head and the same
/// free list as a well-formed one is well formed.
pub proof fn lemma_wf_model_same_keys_other_type<T, R>(m1: MapModel<T>, m2: MapModel<R>)
    requires
        wf_model(m1),
        m2.cells.len() == m1.cells.len(),
        forall|x: int| 0 <= x < m2.cells.len() ==> (#[trigger] m2.cells[x]).0 == m1.cells[x].0,
        m2.next_open_slot == m1.next_open_slot,
        m2.free_list == m1.free_list,
    ensures
        wf_model(m2),
{
    assert forall|j: int|
        0 <= j < m2.cells.len() && !(#[trigger] m2.cells[j]).0.spec_is_filled() implies
        m2.free_list.contains(j) by {
        assert(!m1.cells[j].0.spec_is_filled());
    }
    assert forall|p: int| 0 <= p < m2.free_list.len() implies 0 <= #[trigger] m2.free_list[p]
        < m2.cells.len() && !m2.cells[m2.free_list[p]].0.spec_is_filled() by {
        assert(m1.free_list[p] == m2.free_list[p]);
    }
    assert forall|p: int| 0 <= p < m2.free_list.len() - 1 implies m2.cells[
        #[trigger] m2.free_list[p]
    ].0.index_of() == m2.free_list[p + 1] by {
        assert(m1.cells[m1.free_list[p]].0.index_of() == m1.free_list[p + 1]);
    }
    if m2.free_list.len() > 0 {
        assert(m1.cells[m1.free_list[m1.free_list.len() - 1]].0.index_of() == m1.cells.len());
    }
}

} // verus!
