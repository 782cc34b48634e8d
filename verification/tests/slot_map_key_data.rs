use one_way_slot_map::SlotMapKeyData;
use one_way_slot_map::MAX_GENERATION;
use one_way_slot_map::MAX_INDEX_IN_CHUNK;

#[test]
fn test_coordinate_serialization() {
    let inc: u64 = 91;

    for i in 0..10_000 {
        let v = i * inc;
        let key = SlotMapKeyData::from(v);

        assert_eq!(v, u64::from(key));
    }
}

#[test]
fn test_generation_serialization() {
    let inc: u32 = 91;

    let mut key = SlotMapKeyData::from(1340850812u64);

    for i in 0..10_000 {
        let g = i * inc;
        key.generation = g;

        assert_eq!(key, SlotMapKeyData::from(u64::from(key)));
    }
}

#[test]
fn test_pack_unpack_edges() {
    let zero = SlotMapKeyData::from(0u64);
    assert_eq!(zero.index_in_chunk, 0);
    assert_eq!(zero.chunk_index, 0);
    assert_eq!(zero.generation, 0);
    assert_eq!(u64::from(zero), 0);

    let all = SlotMapKeyData::from(u64::MAX);
    assert_eq!(all.index_in_chunk, MAX_INDEX_IN_CHUNK);
    assert_eq!(all.chunk_index, u32::MAX);
    assert_eq!(all.generation, MAX_GENERATION);
    assert_eq!(u64::from(all), u64::MAX);

    let lowest_of_each = SlotMapKeyData {
        index_in_chunk: 1,
        chunk_index: 1,
        generation: 1,
    };
    assert_eq!(u64::from(lowest_of_each), 1 + (1u64 << 8) + (1u64 << 40));
    assert_eq!(
        SlotMapKeyData::from(1 + (1u64 << 8) + (1u64 << 40)),
        lowest_of_each
    );
}

#[test]
fn test_generation_parity_marks_occupancy() {
    let mut key = SlotMapKeyData::default();
    assert_eq!(key.generation, 0);
    key.generation = 7;
    assert_eq!(key.index_in_chunk, 0);
    assert_eq!(key.chunk_index, 0);
    assert_eq!(key.generation, 7);
}
