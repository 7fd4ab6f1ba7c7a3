use contig_storage::cell::Item;
use contig_storage::{ContigStorage, FullError, GrowBehavior, Key, MAX_CAPACITY};

fn drained<T: Copy>(storage: &mut ContigStorage<T>) -> Vec<T> {
    let mut drain = storage.drain();
    let mut out = Vec::new();
    while let Some(v) = drain.next() {
        out.push(v);
    }
    out
}

#[test]
fn remove_refills_from_boundary() {
    let mut storage = ContigStorage::new(6, GrowBehavior::Fixed);
    let k1 = storage.add('a').unwrap();
    let k2 = storage.add('b').unwrap();
    let k3 = storage.add('c').unwrap();
    assert_eq!(storage.remove(&k2), Some('b'));
    assert_eq!(storage.get_slice(), &['a', 'c'][..]);
    assert_eq!(storage.remove(&k1), Some('a'));
    assert_eq!(storage.get_slice(), &['c'][..]);
    assert_eq!(storage.get(&k3), Some(&'c'));
}

#[test]
fn keys_are_slot_xor_salt() {
    let mut storage = ContigStorage::with_salt(4, GrowBehavior::Fixed, 0b1010);
    assert_eq!(storage.add(10u64), Ok(Key(0b1010)));
    assert_eq!(storage.add(11u64), Ok(Key(0b1011)));
    assert_eq!(storage.get(&Key(0b1011)), Some(&11));
    assert_eq!(storage.get(&Key(0)), None);
}

#[test]
fn stale_key_after_clear_with_new_salt() {
    let mut storage = ContigStorage::with_salt(10, GrowBehavior::Fixed, 5);
    let ka = storage.add('a').unwrap();
    storage.clear_with_salt(9);
    let kb = storage.add('b').unwrap();
    assert_eq!(storage.get(&ka), None);
    assert_eq!(storage.get(&kb), Some(&'b'));
}

#[test]
fn nothing_reachable_right_after_clear() {
    let mut storage = ContigStorage::with_salt(10, GrowBehavior::Fixed, 0);
    let keys: Vec<Key> = (0..7u64).map(|v| storage.add(v).unwrap()).collect();
    storage.remove(&keys[2]);
    storage.clear_with_salt(0);
    assert!(storage.is_empty());
    for k in keys.iter() {
        assert_eq!(storage.get(k), None);
        assert_eq!(storage.get_slice_index(k), None);
    }
}

#[test]
fn second_remove_finds_nothing() {
    let mut storage = ContigStorage::with_salt(8, GrowBehavior::Fixed, 3);
    let ka = storage.add(1u64).unwrap();
    let kb = storage.add(2u64).unwrap();
    let _kc = storage.add(3u64).unwrap();
    assert_eq!(storage.remove(&ka), Some(1));
    assert_eq!(storage.remove(&ka), None);
    assert_eq!(storage.remove(&kb), Some(2));
    assert_eq!(storage.remove(&kb), None);
    assert_eq!(storage.len(), 1);
}

#[test]
fn add_then_remove_gives_value_back() {
    let mut storage = ContigStorage::new(3, GrowBehavior::Fixed);
    let k = storage.add(42u64).unwrap();
    assert_eq!(storage.remove(&k), Some(42));
    assert!(storage.is_empty());
}

#[test]
fn fixed_container_refuses_when_full() {
    let mut storage = ContigStorage::new(2, GrowBehavior::Fixed);
    assert!(storage.add(1u64).is_ok());
    assert!(storage.add(2u64).is_ok());
    assert_eq!(storage.add(3u64), Err(FullError));
    assert_eq!(storage.get_slice(), &[1, 2][..]);
}

#[test]
fn doubling_grows_and_keeps_keys() {
    let mut storage = ContigStorage::new(0, GrowBehavior::Doubling);
    assert_eq!(storage.capacity(), 0);
    let k0 = storage.add(100u64).unwrap();
    assert_eq!(storage.capacity(), 4);
    let mut keys = vec![k0];
    for v in 1..5u64 {
        keys.push(storage.add(100 + v).unwrap());
    }
    assert_eq!(storage.capacity(), 12);
    for (i, k) in keys.iter().enumerate() {
        assert_eq!(storage.get(k), Some(&(100 + i as u64)));
    }
}

#[test]
fn capacity_max_is_lowered() {
    let storage = ContigStorage::<u64>::with_salt(0, GrowBehavior::Fixed, 0);
    assert_eq!(storage.capacity(), 0);
    assert_eq!(MAX_CAPACITY, usize::MAX - 1);
}

#[test]
fn forwarded_key_survives_moves() {
    // [a b c d]; removing b moves d into slot 1 and leaves slot 3 forwarding.
    let mut storage = ContigStorage::with_salt(4, GrowBehavior::Fixed, 0);
    let ka = storage.add('a').unwrap();
    let kb = storage.add('b').unwrap();
    let kc = storage.add('c').unwrap();
    let kd = storage.add('d').unwrap();
    assert_eq!(storage.remove(&kb), Some('b'));
    assert_eq!(storage.get_slice(), &['a', 'd', 'c'][..]);
    assert_eq!(storage.get_slice_index(&kd), Some(1));
    // The direct key of slot 1 no longer reaches the moved value.
    assert_eq!(storage.get(&kb), None);
    assert_eq!(storage.remove(&kc), Some('c'));
    assert_eq!(storage.remove(&ka), Some('a'));
    assert_eq!(storage.get_slice(), &['d'][..]);
    assert_eq!(storage.get(&kd), Some(&'d'));
    // Adding over the forwarding cell hands its target to the new value.
    let ke = storage.add('e').unwrap();
    assert_eq!(ke, Key(0));
    assert_eq!(storage.get_slice(), &['e', 'd'][..]);
    assert_eq!(storage.get(&kd), Some(&'d'));
    assert_eq!(storage.remove(&kd), Some('d'));
    assert_eq!(storage.remove(&ke), Some('e'));
    assert!(storage.is_empty());
}

#[test]
fn get_mut_writes_through() {
    let mut storage = ContigStorage::new(4, GrowBehavior::Fixed);
    let k = storage.add(7u64).unwrap();
    *storage.get_mut(&k).unwrap() = 8;
    assert_eq!(storage.get(&k), Some(&8));
    storage.remove(&k);
    assert!(storage.get_mut(&k).is_none());
}

#[test]
fn invalidated_keys_stop_working() {
    let mut storage = ContigStorage::with_salt(4, GrowBehavior::Fixed, 0);
    let k = storage.add(7u64).unwrap();
    storage.invalidate_keys_with_salt(16);
    assert_eq!(storage.get(&k), None);
    assert_eq!(storage.get_slice(), &[7][..]);
}

#[test]
fn new_keys_follow_slice_order() {
    let mut storage = ContigStorage::with_salt(6, GrowBehavior::Fixed, 0);
    let ka = storage.add(1u64).unwrap();
    storage.add(2u64).unwrap();
    storage.add(3u64).unwrap();
    storage.remove(&ka);
    let keys = storage.assign_new_keys_with_salt(7);
    assert_eq!(keys, vec![Key(7), Key(6)]);
    assert_eq!(storage.get(&keys[0]), Some(&3));
    assert_eq!(storage.get(&keys[1]), Some(&2));
    let fresh = storage.assign_new_keys();
    assert_eq!(fresh.len(), 2);
    assert_eq!(storage.get(&fresh[0]), Some(&3));
}

#[test]
fn drain_hands_out_slice_and_clears() {
    let mut storage = ContigStorage::new(5, GrowBehavior::Fixed);
    let k = storage.add(1u64).unwrap();
    storage.add(2u64).unwrap();
    storage.add(3u64).unwrap();
    assert_eq!(drained(&mut storage), vec![1, 2, 3]);
    assert!(storage.is_empty());
    assert_eq!(storage.get(&k), None);
    assert_eq!(storage.capacity(), 5);
}

#[test]
fn iter_walks_the_slice() {
    let mut storage = ContigStorage::new(5, GrowBehavior::Fixed);
    let k = storage.add(1u64).unwrap();
    storage.add(2u64).unwrap();
    storage.add(3u64).unwrap();
    storage.remove(&k);
    assert_eq!(storage.iter().copied().collect::<Vec<_>>(), vec![3, 2]);
}

#[test]
fn cell_words() {
    let mut cell = Item::nothing();
    assert!(cell.is_nothing());
    cell.set_indirection(0);
    assert!(!cell.is_nothing());
    assert_eq!(cell.get_indirection(), 0);
    cell.set_indirection(41);
    assert_eq!(cell.get_indirection(), 41);
    cell.set_nothing();
    assert!(cell.is_nothing());
}
