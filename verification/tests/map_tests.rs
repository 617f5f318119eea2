use mstate::kv::{encode_key_array, KvMap};
use mstate::store::MapStore;

#[test]
fn simple() {
    let store = MapStore::new();
    let mut map: KvMap<MapStore, u64, u64> = KvMap::wrap_store(store).unwrap();

    assert_eq!(map.get(&1234).unwrap(), None);

    map.insert(1234, 5678).unwrap();
    assert_eq!(map.get(&1234).unwrap(), Some(5678));

    map.delete(&1234).unwrap();
    assert_eq!(map.get(&1234).unwrap(), None);
}

#[test]
fn map_iter() {
    let store = MapStore::new();
    let mut map: KvMap<MapStore, u64, u64> = KvMap::wrap_store(store).unwrap();

    map.insert(123, 456).unwrap();
    map.insert(100, 100).unwrap();
    map.insert(400, 100).unwrap();

    let mut iter = map.iter_from(&101);
    assert_eq!(iter.next(), Some((123, 456)));
    assert_eq!(iter.next(), Some((400, 100)));
    assert_eq!(iter.next(), None);
}

#[test]
fn iter_all_ascending() {
    let store = MapStore::new();
    let mut map: KvMap<MapStore, u64, u64> = KvMap::wrap_store(store).unwrap();

    map.insert(300, 3).unwrap();
    map.insert(100, 1).unwrap();
    map.insert(200, 2).unwrap();

    let mut iter = map.iter();
    assert_eq!(iter.next(), Some((100, 1)));
    assert_eq!(iter.next(), Some((200, 2)));
    assert_eq!(iter.next(), Some((300, 3)));
    assert_eq!(iter.next(), None);
}

#[test]
fn insert_overwrites() {
    let store = MapStore::new();
    let mut map: KvMap<MapStore, u32, u32> = KvMap::wrap_store(store).unwrap();

    map.insert(7, 1).unwrap();
    map.insert(7, 2).unwrap();
    assert_eq!(map.get(&7).unwrap(), Some(2));

    let mut iter = map.iter();
    assert_eq!(iter.next(), Some((7, 2)));
    assert_eq!(iter.next(), None);
}

#[test]
fn delete_absent_key_is_ok() {
    let store = MapStore::new();
    let mut map: KvMap<MapStore, u16, u16> = KvMap::wrap_store(store).unwrap();
    assert!(map.delete(&9).is_ok());
    assert_eq!(map.get(&9).unwrap(), None);
}

#[test]
fn key_array_holds_the_encoding() {
    let (buf, n) = encode_key_array(&0x01020304u32).unwrap();
    assert_eq!(n, 4);
    assert_eq!(&buf[..4], &[1, 2, 3, 4]);
    assert!(buf[4..].iter().all(|b| *b == 0));
}
