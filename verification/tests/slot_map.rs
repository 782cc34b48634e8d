use one_way_slot_map::BasicKey;
use one_way_slot_map::SlotMap;
use one_way_slot_map::SlotMapKeyData;
use one_way_slot_map::SLOT_MAP_CHUNK_SIZE;

fn create_test_map() -> SlotMap<BasicKey<usize>, usize, String> {
    SlotMap::new()
}

#[test]
fn test_crud() {
    let mut map = create_test_map();

    let key = map.insert(0, "0".to_owned());

    assert_eq!(map.len(), 1);

    assert_eq!(map.get(&key), Some(&"0".to_owned()));

    {
        let v = map.get_mut(&key).expect("Key should be present");
        *v = "1".to_owned();
    }

    assert_eq!(map.remove(&key), Some(&mut "1".to_owned()));
    assert_eq!(map.get(&key), None);

    assert_eq!(map.len(), 0);
}

#[test]
fn test_lots_of_crud() {
    let mut map = create_test_map();

    let insertions: usize = SLOT_MAP_CHUNK_SIZE * 10 + SLOT_MAP_CHUNK_SIZE / 2;

    let mut keys = Vec::new();

    for i in 0..insertions {
        keys.push(map.insert(i, format!("{}", i)));
    }

    assert_eq!(map.len(), insertions);

    for k in keys.iter() {
        assert_eq!(map.get(k), Some(&format!("{}", k.pointer)));
    }

    for k in keys.iter() {
        assert_eq!(map.remove(k), Some(&mut format!("{}", k.pointer)));
        assert_eq!(map.get(k), None);
    }

    assert_eq!(map.len(), 0);
}

#[test]
fn test_iter_raw() {
    let mut map = create_test_map();

    let insertions: usize = SLOT_MAP_CHUNK_SIZE * 10 + SLOT_MAP_CHUNK_SIZE / 2;

    let mut keys = Vec::new();

    for i in 0..insertions {
        keys.push(map.insert(i, format!("{}", i)));
    }

    let mut counter: usize = 0;

    for (key_data, v) in map.iter_raw() {
        assert_eq!(&format!("{}", counter), v);
        assert_eq!(map.get_raw(&key_data), Some(v));
        counter += 1;
    }

    assert_eq!(insertions, counter);
}

#[test]
fn test_iter_mut_raw() {
    let mut map = create_test_map();

    let insertions: usize = SLOT_MAP_CHUNK_SIZE * 10 + SLOT_MAP_CHUNK_SIZE / 2;

    let mut keys = Vec::new();

    for i in 0..insertions {
        keys.push(map.insert(i, format!("{}", i)));
    }

    let mut counter: usize = 0;

    let mut expected = Vec::new();

    while let Some((key_data, v)) = map.iter_mut_raw(counter) {
        *v = format!("{}", (counter * 2) + 1);
        expected.push((key_data, v.clone()));
        counter += 1;
    }

    for (k, expected_v) in expected.iter() {
        assert_eq!(map.get_raw(k), Some(expected_v));
    }

    assert_eq!(insertions, counter);
}

#[test]
fn test_values_iterator() {
    let mut map = create_test_map();

    let insertions: usize = SLOT_MAP_CHUNK_SIZE * 10 + SLOT_MAP_CHUNK_SIZE / 2;

    let mut keys = Vec::new();

    for i in 0..insertions {
        keys.push(map.insert(i, format!("{}", i)));
    }

    let mut counter: usize = 0;

    for v in map.values() {
        assert_eq!(&format!("{}", counter), v);
        counter += 1;
    }

    assert_eq!(insertions, counter);
}

#[test]
fn test_values_mut_iterator() {
    let mut map = create_test_map();

    let insertions: usize = SLOT_MAP_CHUNK_SIZE * 10 + SLOT_MAP_CHUNK_SIZE / 2;

    let mut keys = Vec::new();

    for i in 0..insertions {
        keys.push(map.insert(i, format!("{}", i)));
    }

    let mut counter: usize = 0;

    while let Some(v) = map.values_mut(counter) {
        *v = format!("{}", (counter * 2) + 1);
        counter += 1;
    }

    for k in keys.iter() {
        assert_eq!(map.get(k), Some(&format!("{}", (k.pointer * 2) + 1)));
    }

    assert_eq!(insertions, counter);
}

#[test]
fn test_clear() {
    let mut map = create_test_map();

    let insertions: usize = SLOT_MAP_CHUNK_SIZE * 10 + SLOT_MAP_CHUNK_SIZE / 2;

    let mut keys = Vec::new();

    for i in 0..insertions {
        keys.push(map.insert(i, format!("{}", i)));
    }

    assert_eq!(map.len(), insertions);

    map.clear();

    assert_eq!(map.len(), 0);

    assert_eq!(map.values().len(), 0);

    for k in keys.iter() {
        assert_eq!(map.get(k), None);
    }
}

#[test]
fn test_clone() {
    let mut map = create_test_map();

    let insertions: usize = SLOT_MAP_CHUNK_SIZE * 10 + SLOT_MAP_CHUNK_SIZE / 2;
    let iterations: usize = 50;

    let mut keys = Vec::new();

    for _ in 0..iterations {
        keys.clear();

        for i in 0..insertions {
            keys.push(map.insert(i, format!("{}", i)));
        }

        map.clear();
    }

    let map2 = map.clone();

    map.storage()
        .values()
        .iter()
        .zip(map2.storage().values().iter())
        .for_each(|(left, right)| {
            assert_eq!(left, right);
        })
}

fn assert_coordinates_eq(k1: &SlotMapKeyData, k2: &SlotMapKeyData) {
    assert_eq!(k1.chunk_index, k2.chunk_index);
    assert_eq!(k1.index_in_chunk, k2.index_in_chunk);
}

/// Deterministic stand-in for a random shuffle: a Fisher-Yates pass driven
/// by a linear congruential generator.
fn shuffle<T>(items: &mut Vec<T>, seed: u64) {
    let mut state: u64 = seed.wrapping_mul(6364136223846793005).wrapping_add(1442695040888963407);
    let mut i: usize = items.len();
    while i > 1 {
        state = state
            .wrapping_mul(6364136223846793005)
            .wrapping_add(1442695040888963407);
        let pick = ((state >> 33) as usize) % i;
        items.swap(i - 1, pick);
        i -= 1;
    }
}

#[test]
fn test_embedded_empty_stack_consistency() {
    let mut map = create_test_map();

    let insertions: usize = SLOT_MAP_CHUNK_SIZE * 10 + SLOT_MAP_CHUNK_SIZE / 2;
    let iterations: u32 = 50;

    for j in 0..iterations {
        let mut keys = Vec::new();

        for i in 0..insertions {
            let prev_next_slot = map.next_open_slot();

            let next_next_slot = map
                .storage()
                .get_slot(&prev_next_slot)
                .map(|cell| cell.0);

            keys.push(map.insert(i, format!("{}", i)));
            assert_coordinates_eq(
                &prev_next_slot,
                &map.storage()
                    .get_slot(keys.get(i).unwrap().key_data())
                    .unwrap()
                    .0,
            );

            if j > 0 {
                assert_coordinates_eq(
                    next_next_slot.as_ref().unwrap(),
                    &map.next_open_slot(),
                );
            }
        }

        assert_eq!(map.len(), insertions);
        assert_eq!(map.sealed_chunk_count(), 10);
        assert_eq!(map.open_cursor(), SLOT_MAP_CHUNK_SIZE / 2);

        map.storage()
            .values()
            .iter()
            .enumerate()
            .for_each(|(num, cell)| {
                let key = cell.0;
                assert_eq!(key.generation, j * 2);
                assert_eq!(key.index_in_chunk as usize, num % SLOT_MAP_CHUNK_SIZE);
                assert_eq!(key.chunk_index as usize, num / SLOT_MAP_CHUNK_SIZE);
            });

        assert_eq!(
            SlotMapKeyData::from(insertions as u64),
            map.next_open_slot()
        );

        if j % 2 == 0 {
            shuffle(&mut keys, (j + 1) as u64);

            for k in keys.drain(..) {
                let prev_next_slot = map.next_open_slot();
                assert_eq!(&format!("{}", k.pointer), map.remove(&k).unwrap());
                assert_coordinates_eq(k.key_data(), &map.next_open_slot());

                let cleared_slot = map.storage().get_slot(k.key_data()).unwrap().0;

                assert_coordinates_eq(&prev_next_slot, &cleared_slot);

                assert_eq!(2 * j + 1, cleared_slot.generation);
            }
        } else {
            map.clear();
        }
    }
}
