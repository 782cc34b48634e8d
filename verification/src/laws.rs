//! Laws of the slot map, proved over the model transitions of [`crate::model`].
//!
//! Each executable operation of [`crate::SlotMap`] promises that its effect
//! on the map's model equals one of the transition functions; these lemmas
//! state what those transitions guarantee across calls: keys stay fresh
//! until their cell is vacated, vacated keys stay dead, fresh insertions
//! fill chunks in order, and vacated cells are reused most-recent-first.

use crate::model::count_filled;
use crate::model::empty_model;
use crate::model::lemma_count_all_filled;
use crate::model::lemma_insert_preserves_wf;
use crate::model::lemma_remove_with_wf;
use crate::model::lemma_reuses_iff_free_list;
use crate::model::lemma_slot_index_canonical;
use crate::model::lemma_slot_index_in_range;
use crate::model::max_capacity;
use crate::model::spec_get;
use crate::model::spec_insert_key;
use crate::model::spec_insert_model;
use crate::model::spec_remove_hits;
use crate::model::spec_remove_model_with;
use crate::model::spec_value_updated;
use crate::model::wf_model;
use crate::model::MapModel;
use crate::slot_map_key_data::SlotMapKeyData;
use crate::slot_map_key_data::MAX_GENERATION;
use vstd::prelude::*;

verus! {

/// Freshness under insertion: a key that resolves keeps resolving, to the
/// same value, across any insertion.  (A key handed out by the map always
/// has in-chunk coordinates naming one of its cells, which is what the two
/// coordinate premises say.)
pub proof fn lemma_insert_preserves_other_keys<T>(m: MapModel<T>, value: T, h: SlotMapKeyData)
    requires
        wf_model(m),
        m.cells.len() < max_capacity(),
        h.coord_ok(),
        h.index_of() < m.cells.len(),
        spec_get(m, h).is_some(),
    ensures
        spec_get(spec_insert_model(m, value), h) == spec_get(m, h),
{
    let jh = h.index_of();
    lemma_slot_index_canonical(m.cells.len() as int, h);
    lemma_reuses_iff_free_list(m);
    let m2 = spec_insert_model(m, value);
    lemma_insert_preserves_wf(m, value);
    lemma_slot_index_canonical(m2.cells.len() as int, h);
    if crate::model::spec_reuses(m) {
        let j = m.next_open_slot.index_of();
        assert(!m.cells[j].0.spec_is_filled());
        assert(m.cells[jh].0.spec_is_filled());
    }
}

/// Freshness under removal: a key that resolves keeps resolving, to the
/// same value, across the removal of any other key — whatever value the
/// remover leaves in the vacated cell.
pub proof fn lemma_remove_preserves_other_keys<T>(
    m: MapModel<T>,
    k: SlotMapKeyData,
    h: SlotMapKeyData,
    left: T,
)
    requires
        wf_model(m),
        h.coord_ok(),
        h.index_of() < m.cells.len(),
        spec_get(m, h).is_some(),
        spec_remove_hits(m, k) != Some(h.index_of()),
    ensures
        spec_get(spec_remove_model_with(m, k, left), h) == spec_get(m, h),
{
    lemma_slot_index_canonical(m.cells.len() as int, h);
    if spec_remove_hits(m, k).is_some() {
        lemma_slot_index_in_range(m.cells.len() as int, k);
    }
}

/// Freshness under mutable lookup: a key that resolves keeps resolving, to
/// the same value, across a mutable lookup of any other key — whatever
/// value the holder of the reference writes.
pub proof fn lemma_value_update_preserves_other_keys<T>(
    m: MapModel<T>,
    k: SlotMapKeyData,
    h: SlotMapKeyData,
    written: T,
)
    requires
        wf_model(m),
        h.coord_ok(),
        h.index_of() < m.cells.len(),
        spec_get(m, h).is_some(),
        spec_remove_hits(m, k) != Some(h.index_of()),
    ensures
        spec_get(spec_value_updated(m, k, written), h) == spec_get(m, h),
{
    lemma_slot_index_canonical(m.cells.len() as int, h);
    if spec_remove_hits(m, k).is_some() {
        lemma_slot_index_in_range(m.cells.len() as int, k);
    }
}

/// Stale rejection: after a removal by a key, a lookup and a second removal
/// by that same key both find nothing, whatever value the remover left.
pub proof fn lemma_removed_key_stale<T>(m: MapModel<T>, h: SlotMapKeyData, left: T)
    requires
        wf_model(m),
        spec_remove_hits(m, h).is_some(),
    ensures
        spec_get(spec_remove_model_with(m, h, left), h).is_none(),
        spec_remove_hits(spec_remove_model_with(m, h, left), h).is_none(),
{
    lemma_remove_with_wf(m, h);
}

/// Stale rejection across reuse: when an insertion reclaims the very cell a
/// key's removal vacated, the new key differs in generation from the old
/// one, and the old key still resolves to nothing.
pub proof fn lemma_reused_cell_rejects_stale<T>(m: MapModel<T>, h: SlotMapKeyData, value: T)
    requires
        wf_model(m),
        m.cells.len() < max_capacity(),
        h.wf(),
        h.spec_is_filled(),
        crate::model::spec_reuses(m),
        h.index_of() == m.next_open_slot.index_of(),
        m.cells[h.index_of()].0.generation == SlotMapKeyData::spec_wrap_inc(h.generation),
    ensures
        spec_insert_key(m).index_of() == h.index_of(),
        spec_insert_key(m).generation != h.generation,
        spec_get(spec_insert_model(m, value), h).is_none(),
{
    let j = m.next_open_slot.index_of();
    lemma_reuses_iff_free_list(m);
    assert(0 <= j < m.cells.len());
    let g = h.generation;
    // The old generation is even, so the stored one is its successor and
    // the reclaimed one its successor again: two or, at the wrap, far more
    // steps away from the old one either way.
    assert(g < MAX_GENERATION);
    assert(m.cells[j].0.generation == g + 1);
    lemma_insert_preserves_wf(m, value);
    let m2 = spec_insert_model(m, value);
    lemma_slot_index_canonical(m2.cells.len() as int, h);
    assert(m2.cells[j].0.generation != g);
}

/// The state after inserting each of `values` in turn, oldest first.
pub open spec fn spec_insert_all<T>(m: MapModel<T>, values: Seq<T>) -> MapModel<T>
    decreases values.len(),
{
    if values.len() == 0 {
        m
    } else {
        spec_insert_all(spec_insert_model(m, values.first()), values.drop_first())
    }
}

/// Chunk filling: insertions into a map with an empty free list append one
/// cell each, oldest value first, and leave the free list empty; every cell
/// stays occupied.  In particular the storage then holds exactly as many
/// cells as insertions: whole sealed chunks of them, and the rest as the
/// open chunk's fill cursor.
pub proof fn lemma_fresh_inserts_extend<T>(m: MapModel<T>, values: Seq<T>)
    requires
        wf_model(m),
        m.free_list.len() == 0,
        m.cells.len() + values.len() <= max_capacity(),
    ensures
        wf_model(spec_insert_all(m, values)),
        spec_insert_all(m, values).free_list.len() == 0,
        spec_insert_all(m, values).cells.len() == m.cells.len() + values.len(),
        count_filled(spec_insert_all(m, values).cells) == m.cells.len() + values.len(),
    decreases values.len(),
{
    lemma_reuses_iff_free_list(m);
    if values.len() == 0 {
        assert forall|j2: int| 0 <= j2 < m.cells.len() implies (
        #[trigger] m.cells[j2]).0.spec_is_filled() by {
            if !m.cells[j2].0.spec_is_filled() {
                assert(m.free_list.contains(j2));
            }
        }
        lemma_count_all_filled(m.cells);
    } else {
        lemma_insert_preserves_wf(m, values.first());
        lemma_fresh_inserts_extend(spec_insert_model(m, values.first()), values.drop_first());
    }
}

/// Chunk filling from an empty map: inserting `n` values yields `n`
/// occupied cells and an empty free list, so the map then has
/// `n / chunk_size()` sealed chunks and a fill cursor of `n % chunk_size()`
/// (the division the map's chunk counters perform).
pub proof fn lemma_chunk_shape_after_fresh_inserts<T>(values: Seq<T>)
    requires
        values.len() <= max_capacity(),
    ensures
        wf_model(spec_insert_all(empty_model::<T>(), values)),
        spec_insert_all(empty_model::<T>(), values).cells.len() == values.len(),
        count_filled(spec_insert_all(empty_model::<T>(), values).cells) == values.len(),
        spec_insert_all(empty_model::<T>(), values).free_list.len() == 0,
{
    crate::model::lemma_empty_model_wf::<T>();
    lemma_fresh_inserts_extend(empty_model::<T>(), values);
}

/// Free-list order: vacate the cell of key `a`, then the cell of key `b`;
/// the next insertion reuses `b`'s cell, and the one after it `a`'s.  The
/// free list is last-vacated, first-reused.
pub proof fn lemma_free_list_lifo<T>(
    m: MapModel<T>,
    a: SlotMapKeyData,
    b: SlotMapKeyData,
    left_a: T,
    left_b: T,
    value: T,
)
    requires
        wf_model(m),
        m.cells.len() < max_capacity(),
        spec_remove_hits(m, a).is_some(),
        spec_remove_hits(spec_remove_model_with(m, a, left_a), b).is_some(),
    ensures
        ({
            let after_removes = spec_remove_model_with(
                spec_remove_model_with(m, a, left_a),
                b,
                left_b,
            );
            &&& spec_insert_key(after_removes).index_of() == spec_remove_hits(
                spec_remove_model_with(m, a, left_a),
                b,
            ).unwrap()
            &&& spec_insert_key(spec_insert_model(after_removes, value)).index_of()
                == spec_remove_hits(m, a).unwrap()
        }),
{
    let ja = spec_remove_hits(m, a).unwrap();
    let m1 = spec_remove_model_with(m, a, left_a);
    let jb = spec_remove_hits(m1, b).unwrap();
    let m2 = spec_remove_model_with(m1, b, left_b);
    lemma_remove_with_wf(m, a);
    lemma_remove_with_wf(m1, b);
    assert(m2.free_list == seq![jb] + (seq![ja] + m.free_list));
    lemma_reuses_iff_free_list(m2);
    assert(m2.next_open_slot.index_of() == jb);
    lemma_insert_preserves_wf(m2, value);
    let m3 = spec_insert_model(m2, value);
    assert(m3.free_list == (seq![jb] + (seq![ja] + m.free_list)).drop_first());
    assert(m3.free_list[0] == (seq![ja] + m.free_list)[0]);
    lemma_reuses_iff_free_list(m3);
    assert(m3.next_open_slot.index_of() == ja);
}

} // verus!
