use contig_storage::{ContigStorage, GrowBehavior, Key};
use rand::rngs::SmallRng;
use rand::seq::SliceRandom;
use rand::{Rng, SeedableRng};
use std::collections::HashMap;
use std::time::Instant;

#[derive(Copy, Clone, Eq, Hash, PartialEq, Debug)]
struct Data {
    c: char,
    _pad: [u128; 1],
}

impl Data {
    fn new(c: char) -> Self {
        Self { c, _pad: [0; 1] }
    }
}

fn seeded() -> SmallRng {
    let mut seed = [0u8; 32];
    seed[0] = 4;
    SmallRng::from_seed(seed)
}

#[test]
fn eg_test() {
    let mut storage = ContigStorage::<u128>::new(512, GrowBehavior::Fixed);
    let k5 = storage.add(5).unwrap();

    assert_eq!(storage.get(&k5), Some(&5));
    assert_eq!(storage.get(&k5), Some(&5));
    assert_eq!(storage.get(&k5), Some(&5));

    assert_eq!(storage.remove(&k5), Some(5));
    assert_eq!(storage.remove(&k5), None);

    let k9 = storage.add(9).unwrap();
    assert_eq!(storage.get_slice().len(), 1);
    assert_eq!(storage.iter().count(), 1);
    storage.clear();
    assert_eq!(storage.remove(&k9), None);
    assert_eq!(storage.get_slice().len(), 0);
    let mut drain = storage.drain();
    let mut drained = 0;
    while drain.next().is_some() {
        drained += 1;
    }
    assert_eq!(0, drained);
    let _k1 = storage.add(1).unwrap();
    let _k2 = storage.add(2).unwrap();
    let _k3 = storage.add(3).unwrap();
    storage.remove(&_k1);
    assert_ne!(vec![&1, &2, &3], storage.iter().collect::<Vec<_>>());
    storage.clear();

    let k1 = storage.add(1).unwrap();
    assert_eq!(*storage.get(&k1).unwrap(), 1);
}

#[test]
fn slicing() {
    let mut storage = ContigStorage::new(100, GrowBehavior::Fixed);
    let nothing: [u128; 0] = [];
    assert_eq!(&nothing[..], storage.get_slice());
    let rng = 0u128..100;
    let keys: Vec<_> = rng.clone().map(|x| storage.add(x).unwrap()).collect();
    let expected: Vec<_> = rng.clone().collect();
    assert_eq!(&expected[..], storage.get_slice());
    for (k, v) in keys.into_iter().zip(rng) {
        assert_eq!(storage.remove(&k), Some(v));
    }
}

#[test]
fn main_use_after_clear() {
    let mut storage = ContigStorage::new(10, GrowBehavior::Fixed);
    let ka = storage.add('a').unwrap();
    storage.clear();
    let _ka2 = storage.add('b').unwrap();
    assert_eq!(storage.get(&ka), None);
}

#[test]
fn tests_use_after_clear() {
    let mut storage = ContigStorage::new(10, GrowBehavior::Fixed);
    let ka = storage.add('a').unwrap();
    storage.clear();
    let _ka2 = storage.add('b').unwrap();
    assert_eq!(storage.get(&ka), None);
}

fn shuffle_trace(values: usize, moves: usize) {
    let mut rng = seeded();
    let mut storage = ContigStorage::new(values, GrowBehavior::Fixed);

    let mut unstored: Vec<Data> = (0..values)
        .map(|x| Data::new(char::from_u32(x as u32 + 97).unwrap()))
        .collect();
    let mut stored: Vec<Data> = vec![];
    let mut keys: HashMap<Data, Key> = HashMap::new();

    for _i in 0..moves {
        if rng.gen::<f32>() < 0.5 {
            unstored.shuffle(&mut rng);
            if let Some(num) = unstored.pop() {
                stored.push(num);
                keys.insert(num, storage.add(num).unwrap());
            }
        } else {
            stored.shuffle(&mut rng);
            if let Some(num) = stored.pop() {
                let k = keys.remove(&num).unwrap();
                let val: Data = storage.remove(&k).unwrap();
                unstored.push(val);
                assert_eq!(val, num);
            }
        }
        assert_eq!(storage.get_slice().len(), keys.len());
        for (v, k) in keys.iter() {
            assert_eq!(storage.get(k), Some(v));
        }
    }
}

#[test]
fn main_correct() {
    shuffle_trace(26, 5000);
}

#[test]
fn tests_correct() {
    shuffle_trace(26, 5000);
}

#[test]
fn big_test() {
    const VALUES: usize = 1000;
    const MOVES: usize = 50000;

    let mut rng = seeded();
    let mut storage = ContigStorage::new(VALUES, GrowBehavior::Fixed);

    let mut unstored: Vec<usize> = (0..VALUES).collect();
    let mut stored: Vec<usize> = vec![];
    let mut keys: HashMap<usize, Key> = HashMap::new();

    for _i in 0..MOVES {
        if rng.gen::<f32>() < 0.5 {
            unstored.shuffle(&mut rng);
            if let Some(num) = unstored.pop() {
                stored.push(num);
                keys.insert(num, storage.add(num).unwrap());
            }
        } else {
            stored.shuffle(&mut rng);
            if let Some(num) = stored.pop() {
                let k = keys.remove(&num).unwrap();
                let val = storage.remove(&k).unwrap();
                unstored.push(val);
                assert_eq!(val, num);
            }
        }
    }
}

#[test]
fn slice_index_of() {
    let mut storage = ContigStorage::with_salt(8, GrowBehavior::Fixed, 0);
    let ka = storage.add('a').unwrap();
    let kb = storage.add('b').unwrap();
    let kc = storage.add('c').unwrap();
    assert_eq!(storage.get_slice_index(&ka), Some(0));
    assert_eq!(storage.get_slice_index(&kc), Some(2));
    storage.remove(&ka);
    assert_eq!(storage.get_slice(), &['c', 'b'][..]);
    assert_eq!(storage.get_slice_index(&kc), Some(0));
    assert_eq!(storage.get_slice_index(&kb), Some(1));
    assert_eq!(storage.get_slice_index(&ka), None);
}

#[test]
fn benching() {
    const SIZE: usize = 10_000;
    const HALFSIZE: usize = SIZE / 2;
    type Data = usize;
    let mut order: Vec<usize> = (0..SIZE).collect();
    order.shuffle(&mut rand::thread_rng());

    let t = Instant::now();
    let mut storage = ContigStorage::<Data>::new(SIZE, GrowBehavior::Fixed);
    println!("MY alloc {:?}", t.elapsed());

    let t = Instant::now();
    let mut vec: Vec<Data> = Vec::with_capacity(SIZE);
    println!("vec alloc {:?}", t.elapsed());

    let t = Instant::now();
    let mut hashmap: HashMap<Data, Data> = HashMap::with_capacity(SIZE);
    println!("hashmap alloc {:?}", t.elapsed());

    let t = Instant::now();
    let keys: Vec<_> = (0..SIZE).map(|v| storage.add(v).unwrap()).collect();
    println!("MY push {:?}", t.elapsed());

    let t = Instant::now();
    for v in 0..SIZE {
        vec.push(v);
    }
    println!("vec push {:?}", t.elapsed());

    let t = Instant::now();
    for v in 0..SIZE {
        hashmap.insert(v, v);
    }
    println!("hashmap insert {:?}", t.elapsed());

    let t = Instant::now();
    for &index in &order[..HALFSIZE] {
        let k = &keys[index];
        let _v2 = storage.remove(k).unwrap();
    }
    println!("MY remove {:?}", t.elapsed());

    let t = Instant::now();
    for &index in &order[..HALFSIZE] {
        let v = index as Data;
        let _v2 = hashmap.remove(&v).unwrap();
    }
    println!("hashmap remove {:?}", t.elapsed());

    let t = Instant::now();
    for &index in &order[HALFSIZE..] {
        storage.add(index).unwrap();
    }
    println!("MY push (contents dirty) {:?}", t.elapsed());

    let t = Instant::now();
    storage.clear();
    println!("MY clear {:?}", t.elapsed());
}
