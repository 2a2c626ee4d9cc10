use rand::{RngCore, Rng, SeedableRng};
use rand_chacha::ChaCha8Rng;
use rust_persist::table::Table;
use std::collections::HashMap;

type Rand = ChaCha8Rng;

fn seeded_rng(s: u64) -> Rand {
    let mut seed: <Rand as SeedableRng>::Seed = Default::default();
    seed[0..8].copy_from_slice(&s.to_ne_bytes());
    Rand::from_seed(seed)
}

fn random_data(rand: &mut Rand, max_size: usize) -> Vec<u8> {
    let size = std::cmp::min(rand.gen_range(0..max_size), rand.gen_range(0..max_size));
    let mut data = vec![0; size];
    rand.fill_bytes(&mut data);
    data
}

fn test_one_seed(seed: u64) {
    let mut rand = seeded_rng(seed);
    let mut data = HashMap::new();
    let mut tbl = Table::create();
    let count = rand.gen_range(100..1000);
    for _ in 0..count / 2 {
        let key = random_data(&mut rand, 100);
        let value = random_data(&mut rand, 1000);
        tbl.set(&key, &value).unwrap();
        assert!(tbl.is_valid());
        data.insert(key, value);
    }
    let image = tbl.to_bytes();
    tbl.close();
    let mut tbl = Table::open(&image).unwrap();
    assert!(tbl.is_valid());
    for _ in count / 2..count {
        let key = random_data(&mut rand, 100);
        let value = random_data(&mut rand, 1000);
        tbl.set(&key, &value).unwrap();
        assert!(tbl.is_valid());
        data.insert(key, value);
    }
    let image = tbl.to_bytes();
    tbl.close();
    let mut tbl = Table::open(&image).unwrap();
    assert!(tbl.is_valid());
    for (key, value) in data {
        let stored = tbl.get(&key);
        assert!(stored.is_some());
        assert_eq!(stored.unwrap(), &value);
        let removed = tbl.delete(&key).unwrap();
        assert!(removed.is_some());
        assert_eq!(removed.unwrap(), &value);
        let stored = tbl.get(&key);
        assert!(stored.is_none());
        assert!(tbl.is_valid());
    }
    assert!(tbl.is_empty())
}

#[test]
fn smoke_test_42() {
    test_one_seed(42)
}

#[test]
fn smoke_test_666() {
    test_one_seed(666)
}

#[test]
fn smoke_test_1337() {
    test_one_seed(1337)
}

#[test]
fn smoke_test_1701() {
    test_one_seed(1701)
}
