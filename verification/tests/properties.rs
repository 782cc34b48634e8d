use one_way_slot_map::BasicKey;
use one_way_slot_map::SlotMap;
use one_way_slot_map::SlotMapKey;
use one_way_slot_map::SlotMapKeyData;
use one_way_slot_map::SLOT_MAP_CHUNK_SIZE;

fn coordinates_of(key: &BasicKey<usize>) -> (u32, u16) {
    let data = key.key_data();
    (data.chunk_index, data.index_in_chunk)
}

#[test]
fn test_empty_map() {
    let mut map: SlotMap<BasicKey<usize>, usize, String> = SlotMap::new();
    assert!(map.is_empty());
    assert_eq!(map.len(), 0);
    assert_eq!(map.sealed_chunk_count(), 0);
    assert_eq!(map.open_cursor(), 0);
    assert_eq!(map.get_raw(&SlotMapKeyData::default()), None);
    assert!(!map.contains_key_raw(&SlotMapKeyData::default()));
    assert_eq!(map.remove_raw(&SlotMapKeyData::default()), None);
    assert_eq!(map.values().len(), 0);
    map.clear();
    assert!(map.is_empty());
}

#[test]
fn test_stale_rejection() {
    let mut map: SlotMap<BasicKey<usize>, usize, String> = SlotMap::new();
    let key = map.insert(1, "one".to_owned());

    assert_eq!(map.remove(&key), Some(&mut "one".to_owned()));
    assert_eq!(map.get(&key), None);
    assert_eq!(map.get_mut(&key), None);
    assert_eq!(map.remove(&key), None);
    assert!(!map.contains_key(&key));

    // Reuse the vacated cell: the old key must still resolve to nothing.
    let replacement = map.insert(2, "two".to_owned());
    assert_eq!(coordinates_of(&replacement), coordinates_of(&key));
    assert_ne!(
        replacement.key_data().generation,
        key.key_data().generation
    );
    assert_eq!(map.get(&key), None);
    assert_eq!(map.remove(&key), None);
    assert_eq!(map.get(&replacement), Some(&"two".to_owned()));
}

#[test]
fn test_free_list_lifo() {
    let mut map: SlotMap<BasicKey<usize>, usize, String> = SlotMap::new();
    let mut keys = Vec::new();
    for i in 0..4usize {
        keys.push(map.insert(i, format!("{}", i)));
    }

    // Vacate A then B: the next two insertions must reuse B's cell first.
    let a = &keys[1];
    let b = &keys[2];
    assert!(map.remove(a).is_some());
    assert!(map.remove(b).is_some());

    let first = map.insert(10, "ten".to_owned());
    let second = map.insert(11, "eleven".to_owned());
    assert_eq!(coordinates_of(&first), coordinates_of(b));
    assert_eq!(coordinates_of(&second), coordinates_of(a));
    assert_eq!(map.len(), 4);
}

#[test]
fn test_chunk_sealing() {
    let mut map: SlotMap<BasicKey<usize>, usize, usize> = SlotMap::new();
    let insertions: usize = SLOT_MAP_CHUNK_SIZE * 2 + 3;
    let mut keys = Vec::new();
    for i in 0..insertions {
        keys.push(map.insert(i, i * i));
        assert_eq!(map.len(), i + 1);
    }
    assert_eq!(map.sealed_chunk_count(), 2);
    assert_eq!(map.open_cursor(), 3);

    // Removal vacates cells but never unseals a chunk or moves the cursor.
    for k in keys.iter() {
        assert!(map.remove(k).is_some());
    }
    assert_eq!(map.len(), 0);
    assert_eq!(map.sealed_chunk_count(), 2);
    assert_eq!(map.open_cursor(), 3);
}

#[test]
fn test_scenario_full_cycle() {
    // Fill ten chunks and ten cells more, with labelled items.
    let mut map: SlotMap<BasicKey<usize>, usize, String> = SlotMap::new();
    let insertions: usize = SLOT_MAP_CHUNK_SIZE * 10 + 10;
    let mut keys = Vec::new();
    for i in 0..insertions {
        keys.push(map.insert(i, format!("item-{}", i)));
    }
    assert_eq!(map.len(), 2570);
    assert_eq!(map.sealed_chunk_count(), 10);
    assert_eq!(map.open_cursor(), 10);

    // Remove everything, in insertion order.
    for (i, k) in keys.iter().enumerate() {
        assert_eq!(map.remove(k), Some(&mut format!("item-{}", i)));
    }
    assert_eq!(map.len(), 0);

    // Insert the same number again: the freed cells must be reused in
    // reverse removal order, and every old key must stay dead.
    let mut new_keys = Vec::new();
    for i in 0..insertions {
        new_keys.push(map.insert(i, format!("new-{}", i)));
    }
    assert_eq!(map.len(), 2570);
    assert_eq!(map.sealed_chunk_count(), 10);
    assert_eq!(map.open_cursor(), 10);

    for (i, new_key) in new_keys.iter().enumerate() {
        let reused = &keys[insertions - 1 - i];
        assert_eq!(coordinates_of(new_key), coordinates_of(reused));
        assert_eq!(map.get(new_key), Some(&format!("new-{}", i)));
    }
    for old_key in keys.iter() {
        assert_eq!(map.get(old_key), None);
    }
}

#[test]
fn test_drain_empties() {
    let mut map: SlotMap<BasicKey<usize>, usize, String> = SlotMap::new();
    let mut keys = Vec::new();
    for i in 0..600usize {
        keys.push(map.insert(i, format!("{}", i)));
    }
    // Some prior removals, so the free list is not empty when the sweep runs.
    for i in 0..100usize {
        assert!(map.remove(&keys[i * 3]).is_some());
    }
    assert_eq!(map.len(), 500);

    map.drain();

    assert_eq!(map.len(), 0);
    assert_eq!(map.values().len(), 0);
    assert_eq!(map.iter_raw().len(), 0);
    for k in keys.iter() {
        assert_eq!(map.get(k), None);
    }

    // The storage shape survives, and the map keeps working.
    assert_eq!(map.sealed_chunk_count(), 2);
    assert_eq!(map.open_cursor(), 88);
    let key = map.insert(7, "again".to_owned());
    assert_eq!(map.get(&key), Some(&"again".to_owned()));
    assert_eq!(map.len(), 1);
}

#[test]
fn test_unbounded_and_raw_access() {
    let mut map: SlotMap<BasicKey<usize>, usize, String> = SlotMap::new();
    let key = map.insert(5, "five".to_owned());

    // A key of a different type, carrying the same triple, works through
    // the unbounded forms.
    let foreign: BasicKey<String> =
        BasicKey::from_parts("label".to_owned(), *key.key_data());
    assert_eq!(map.get_unbounded(&foreign), Some(&"five".to_owned()));
    assert!(map.contains_key_unbounded(&foreign));
    {
        let v = map.get_mut_unbounded(&foreign).unwrap();
        *v = "cinq".to_owned();
    }
    assert_eq!(map.get(&key), Some(&"cinq".to_owned()));
    assert_eq!(map.remove_unbounded(&foreign), Some(&mut "cinq".to_owned()));
    assert_eq!(map.get(&key), None);
}

#[test]
fn test_map_preserves_structure() {
    let mut source: SlotMap<BasicKey<usize>, usize, String> = SlotMap::new();
    let mut keys = Vec::new();
    for i in 0..300usize {
        keys.push(source.insert(i, "x".repeat(i % 7)));
    }
    assert!(source.remove(&keys[11]).is_some());
    assert!(source.remove(&keys[23]).is_some());

    let lengths: SlotMap<BasicKey<usize>, usize, usize> = source.map(&|v: &String| v.len());

    assert_eq!(lengths.len(), source.len());
    assert_eq!(lengths.sealed_chunk_count(), source.sealed_chunk_count());
    assert_eq!(lengths.open_cursor(), source.open_cursor());
    for (i, k) in keys.iter().enumerate() {
        if i == 11 || i == 23 {
            assert_eq!(lengths.get(k), None);
        } else {
            assert_eq!(lengths.get(k), Some(&(i % 7)));
        }
    }
    // The free list came over too: insertion reuses the same cells in both.
    let mut source2 = source.map(&|v: &String| v.clone());
    let mut lengths2 = lengths;
    let in_source = source2.insert(1000, "replacement".to_owned());
    let in_lengths = lengths2.insert(1000, 11);
    assert_eq!(
        in_source.key_data().chunk_index,
        in_lengths.key_data().chunk_index
    );
    assert_eq!(
        in_source.key_data().index_in_chunk,
        in_lengths.key_data().index_in_chunk
    );
    assert_eq!(
        in_source.key_data().index_in_chunk,
        keys[23].key_data().index_in_chunk
    );
    assert_eq!(in_source.key_data().chunk_index, keys[23].key_data().chunk_index);
}

#[test]
fn test_iter_with_pointer_finder() {
    let mut map: SlotMap<BasicKey<usize>, usize, String> = SlotMap::new();
    for i in 0..20usize {
        map.insert(i, "y".repeat(i));
    }
    let pairs = map.iter(&|v: &String| v.len());
    assert_eq!(pairs.len(), 20);
    for (key, value) in pairs.iter() {
        assert_eq!(key.pointer, value.len());
        assert_eq!(map.get(key), Some(*value));
    }

    let mut n: usize = 0;
    while let Some((key, value)) = map.iter_mut(&|v: &String| v.len(), n) {
        assert_eq!(key.pointer, value.len());
        value.push('z');
        n += 1;
    }
    assert_eq!(n, 20);
    let after = map.values();
    for (i, v) in after.iter().enumerate() {
        assert_eq!(v.len(), i + 1);
    }
}

#[test]
fn test_basic_key_parts() {
    let data = SlotMapKeyData::from(77u64);
    let key: BasicKey<&'static str> = BasicKey::from_parts("payload", data);
    assert_eq!(key.pointer, "payload");
    assert_eq!(key.key_data(), &data);
    assert_eq!(key.get_slot_map_key_data(), &data);
}
