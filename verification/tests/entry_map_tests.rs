use mstate::backing::BackingStore;
use mstate::entry_map::{Entry, EntryMap};
use mstate::kv::Bound;
use mstate::records::{MapEntry, MultiKeyMapEntry, TupleMapEntry};
use mstate::store::MapStore;

fn setup<T: Entry>() -> EntryMap<T, BackingStore> {
    let backing_store = BackingStore::MapStore(MapStore::new());
    EntryMap::with_store(backing_store).unwrap()
}

fn collect<T: Entry>(mut iter: mstate::entry_map::Iter<T, BackingStore>) -> Vec<T> {
    let mut out = Vec::new();
    while let Some(entry) = iter.next() {
        out.push(entry);
    }
    out
}

#[test]
fn insert() {
    let mut entry_map = setup();

    let entry = MapEntry { key: 42, value: 84 };
    entry_map.insert(entry).unwrap();

    assert!(entry_map.contains(MapEntry { key: 42, value: 84 }).unwrap());
}

#[test]
fn insert_store() {
    let mut edit_entry_map = setup();

    edit_entry_map
        .insert(MapEntry { key: 42, value: 84 })
        .unwrap();

    let store = edit_entry_map.into_store();

    let read_entry_map: EntryMap<MapEntry, BackingStore> = EntryMap::with_store(store).unwrap();
    assert!(read_entry_map
        .contains(MapEntry { key: 42, value: 84 })
        .unwrap());
}

#[test]
fn delete_map() {
    let mut entry_map = setup();

    let entry = MapEntry { key: 42, value: 84 };
    entry_map.insert(entry).unwrap();
    entry_map.delete(MapEntry { key: 42, value: 84 }).unwrap();

    assert!(!entry_map.contains(MapEntry { key: 42, value: 84 }).unwrap());
}

#[test]
fn delete_store() {
    let mut entry_map = setup();

    let entry = MapEntry { key: 42, value: 84 };
    entry_map.insert(entry).unwrap();
    entry_map.delete(MapEntry { key: 42, value: 84 }).unwrap();

    let store = entry_map.into_store();

    let read_map: EntryMap<MapEntry, BackingStore> = EntryMap::with_store(store).unwrap();

    assert!(!read_map.contains(MapEntry { key: 42, value: 84 }).unwrap());
}

#[test]
fn entry_map_iter() {
    let mut entry_map = setup();

    entry_map.insert(MapEntry { key: 12, value: 24 }).unwrap();
    entry_map.insert(MapEntry { key: 13, value: 26 }).unwrap();
    entry_map.insert(MapEntry { key: 14, value: 28 }).unwrap();

    let actual: Vec<MapEntry> = vec![
        MapEntry { key: 12, value: 24 },
        MapEntry { key: 13, value: 26 },
        MapEntry { key: 14, value: 28 },
    ];

    let result = collect(entry_map.iter().unwrap());
    assert!(result == actual);
}

#[test]
fn range_full() {
    let mut entry_map = setup();

    entry_map.insert(MapEntry { key: 12, value: 24 }).unwrap();
    entry_map.insert(MapEntry { key: 13, value: 26 }).unwrap();
    entry_map.insert(MapEntry { key: 14, value: 28 }).unwrap();

    let expected_entries: Vec<MapEntry> = vec![
        MapEntry { key: 12, value: 24 },
        MapEntry { key: 13, value: 26 },
        MapEntry { key: 14, value: 28 },
    ];

    let result = collect(entry_map.range(Bound::Unbounded, Bound::Unbounded).unwrap());
    assert!(result == expected_entries);
}

#[test]
fn range_exclusive_upper() {
    let mut entry_map = setup();

    entry_map.insert(MapEntry { key: 12, value: 24 }).unwrap();
    entry_map.insert(MapEntry { key: 13, value: 26 }).unwrap();
    entry_map.insert(MapEntry { key: 14, value: 28 }).unwrap();

    let expected_entries: Vec<MapEntry> = vec![
        MapEntry { key: 12, value: 24 },
        MapEntry { key: 13, value: 26 },
    ];

    let result = collect(entry_map.range(Bound::Unbounded, Bound::Excluded(14)).unwrap());
    assert!(result == expected_entries);
}

#[test]
fn range_bounded_exclusive() {
    let mut entry_map = setup();

    entry_map.insert(MapEntry { key: 12, value: 24 }).unwrap();
    entry_map.insert(MapEntry { key: 13, value: 26 }).unwrap();
    entry_map.insert(MapEntry { key: 14, value: 28 }).unwrap();

    let expected_entries: Vec<MapEntry> = vec![MapEntry { key: 13, value: 26 }];

    let result = collect(entry_map.range(Bound::Included(13), Bound::Excluded(14)).unwrap());
    assert!(result == expected_entries);
}

#[test]
fn contains_wrong_entry() {
    let mut entry_map = setup();

    entry_map.insert(MapEntry { key: 12, value: 24 }).unwrap();

    assert!(!entry_map.contains(MapEntry { key: 12, value: 13 }).unwrap());
}

#[test]
fn contains_removed_entry() {
    let mut entry_map = setup();

    entry_map.insert(MapEntry { key: 12, value: 24 }).unwrap();
    entry_map.delete(MapEntry { key: 12, value: 24 }).unwrap();

    assert!(!entry_map.contains(MapEntry { key: 12, value: 24 }).unwrap());
}

#[test]
fn contains_entry_key() {
    let mut entry_map = setup();

    entry_map.insert(MapEntry { key: 12, value: 24 }).unwrap();

    assert!(entry_map
        .contains_entry_key(MapEntry { key: 12, value: 24 })
        .unwrap());
}

#[test]
fn contains_entry_key_value_non_match() {
    let mut entry_map = setup();

    entry_map.insert(MapEntry { key: 12, value: 24 }).unwrap();

    assert!(entry_map
        .contains_entry_key(MapEntry { key: 12, value: 13 })
        .unwrap());
}

#[test]
fn iter_tuple_struct() {
    let mut entry_map = setup();

    entry_map.insert(TupleMapEntry(12, 24)).unwrap();
    entry_map.insert(TupleMapEntry(13, 26)).unwrap();
    entry_map.insert(TupleMapEntry(14, 28)).unwrap();

    let actual: Vec<TupleMapEntry> = vec![
        TupleMapEntry(12, 24),
        TupleMapEntry(13, 26),
        TupleMapEntry(14, 28),
    ];

    let result = collect(entry_map.iter().unwrap());
    assert!(result == actual);
}

#[test]
fn range_full_tuple_struct() {
    let mut entry_map = setup();

    entry_map.insert(TupleMapEntry(12, 24)).unwrap();
    entry_map.insert(TupleMapEntry(13, 26)).unwrap();
    entry_map.insert(TupleMapEntry(14, 28)).unwrap();

    let expected_entries: Vec<TupleMapEntry> = vec![
        TupleMapEntry(12, 24),
        TupleMapEntry(13, 26),
        TupleMapEntry(14, 28),
    ];

    let result = collect(entry_map.range(Bound::Unbounded, Bound::Unbounded).unwrap());
    assert!(result == expected_entries);
}

#[test]
fn insert_multi_key() {
    let mut entry_map = setup();

    let entry = MultiKeyMapEntry {
        key_1: 42,
        key_2: 12,
        key_3: 9,
        value: 84,
    };

    entry_map.insert(entry).unwrap();

    assert!(entry_map
        .contains(MultiKeyMapEntry {
            key_1: 42,
            key_2: 12,
            key_3: 9,
            value: 84
        })
        .unwrap());
}

#[test]
fn delete_multi_key() {
    let mut entry_map = setup();

    let entry = MultiKeyMapEntry {
        key_1: 42,
        key_2: 12,
        key_3: 9,
        value: 84,
    };

    entry_map.insert(entry).unwrap();
    entry_map
        .delete(MultiKeyMapEntry {
            key_1: 42,
            key_2: 12,
            key_3: 9,
            value: 84,
        })
        .unwrap();

    assert!(!entry_map
        .contains(MultiKeyMapEntry {
            key_1: 42,
            key_2: 12,
            key_3: 9,
            value: 84
        })
        .unwrap());
}

#[test]
fn iter_multi_key() {
    let mut entry_map = setup();

    entry_map
        .insert(MultiKeyMapEntry {
            key_1: 0,
            key_2: 0,
            key_3: 1,
            value: 1,
        })
        .unwrap();
    entry_map
        .insert(MultiKeyMapEntry {
            key_1: 1,
            key_2: 0,
            key_3: 1,
            value: 9,
        })
        .unwrap();
    entry_map
        .insert(MultiKeyMapEntry {
            key_1: 0,
            key_2: 1,
            key_3: 0,
            value: 4,
        })
        .unwrap();

    let expected: Vec<MultiKeyMapEntry> = vec![
        MultiKeyMapEntry {
            key_1: 0,
            key_2: 0,
            key_3: 1,
            value: 1,
        },
        MultiKeyMapEntry {
            key_1: 0,
            key_2: 1,
            key_3: 0,
            value: 4,
        },
        MultiKeyMapEntry {
            key_1: 1,
            key_2: 0,
            key_3: 1,
            value: 9,
        },
    ];

    let store = entry_map.into_store();
    let entry_map: EntryMap<MultiKeyMapEntry, BackingStore> =
        EntryMap::with_store(store).unwrap();
    let result = collect(entry_map.iter().unwrap());
    assert!(result == expected);
}
