use rand::Rng;
use rand_chacha::rand_core::SeedableRng;
use rand_chacha::ChaChaRng;
use rust_store::lsm::Lsm;
use rust_store::rust_store::{Config, RustStore};

fn gen_rand_bytes<T: Rng>(rng: &mut T) -> Vec<u8> {
    let num_bytes = rng.gen_range(1..32);
    let mut ret_vec = vec![0u8; num_bytes];
    rng.fill_bytes(&mut ret_vec);
    ret_vec
}

fn insert_vals(lsm: &mut Lsm, size: u64, rng: &mut ChaChaRng) {
    let mut curr_size: u64 = 0;
    while curr_size < size {
        let rand_key: i32 = rng.gen_range(-50000..50000);
        let rand_val = gen_rand_bytes(rng);
        curr_size += 4 + rand_val.len() as u64;
        lsm.put(rand_key, rand_val);
    }
}

#[test]
fn single_put_get() {
    let config = Config::default();
    let store = {
        let mut s = RustStore::new(Some(config));
        s.put(42, vec![0x2a]);
        s
    };
    assert_eq!(store.get(&42), Some(vec![0x2a]));
    assert_eq!(store.get(&7), None);
}

#[test]
fn delete_then_get() {
    let mut store = RustStore::new(None);
    store.put(5, vec![0x01]);
    store.delete(&5);
    assert_eq!(store.get(&5), None);
}

#[test]
fn overwrite_returns_newest() {
    let mut store = RustStore::new(None);
    store.put(9, vec![1]);
    store.put(9, vec![2]);
    assert_eq!(store.get(&9), Some(vec![2]));
}

#[test]
fn lsm_small_one_disk_run() {
    let mut config = Config::default();
    config.set_memory_map_budget(1000).unwrap();
    let mut lsm = Lsm::new(Some(config));
    lsm.put(42, vec![042u8]);
    let seed = [42; 32];
    let mut rng = ChaChaRng::from_seed(seed);
    insert_vals(&mut lsm, 1500, &mut rng);
    assert_eq!(lsm.get(&42).unwrap(), vec![042u8]);

    lsm.run_manager_step();

    // one flush happened: exactly one run on the first level
    assert_eq!(lsm.num_levels(), 1);
    assert_eq!(lsm.num_runs_at_level(0), 1);
    assert_eq!(lsm.get(&42).unwrap(), vec![042u8]);
}

#[test]
fn test_lsm_delete() {
    let mut config = Config::default();
    config.set_memory_map_budget(1000).unwrap();
    let mut lsm = Lsm::new(Some(config));
    lsm.put(42, vec![042u8]);
    let seed = [42; 32];
    let mut rng = ChaChaRng::from_seed(seed);
    insert_vals(&mut lsm, 1500, &mut rng);
    assert_eq!(lsm.get(&42).unwrap(), vec![042u8]);
    for _ in 0..10 {
        insert_vals(&mut lsm, 1100, &mut rng);
        lsm.run_manager_step();
    }
    lsm.delete(&42);

    assert_eq!(lsm.get(&42), None)
}

#[test]
fn lsm_small_ten_disk_run10() {
    let mut config = Config::default();
    config.set_memory_map_budget(1000).unwrap();
    let mut lsm = Lsm::new(Some(config));
    lsm.put(42, vec![042u8]);
    let seed = [42; 32];
    let mut rng = ChaChaRng::from_seed(seed);
    for _ in 0..10 {
        insert_vals(&mut lsm, 1100, &mut rng);
        lsm.run_manager_step();
    }
    lsm.put(41, vec![041u8]);
    assert_eq!(lsm.get(&42).unwrap(), vec![042u8]);
    assert_eq!(lsm.get(&41).unwrap(), vec![041u8]);

    lsm.run_manager_step();

    let val = lsm.get(&42);
    assert_eq!(val, Some(vec![042u8]));
    let val = lsm.get(&41);
    assert_eq!(val, Some(vec![041u8]));

    // ten flushes reached the size ratio, so the tenth cycle compacted
    // the first level into a single run one level down
    assert_eq!(lsm.num_levels(), 2);
    assert_eq!(lsm.num_runs_at_level(0), 0);
    assert_eq!(lsm.num_runs_at_level(1), 1);
}

#[test]
fn overwrite_survives_flush_compaction() {
    let mut config = Config::default();
    config.set_memory_map_budget(1000).unwrap();
    config.set_t(3).unwrap();
    let mut lsm = Lsm::new(Some(config));
    let seed = [42; 32];
    let mut rng = ChaChaRng::from_seed(seed);
    for v in 0..10u8 {
        lsm.put(7, vec![v]);
        insert_vals(&mut lsm, 1100, &mut rng);
        lsm.run_manager_step();
    }
    // with t = 3 the ten flush cycles forced repeated compactions
    assert!(lsm.num_levels() >= 2);
    assert_eq!(lsm.get(&7), Some(vec![9u8]));
}

#[test]
fn flush_preserves_every_key() {
    let mut config = Config::default();
    config.set_memory_map_budget(500).unwrap();
    let mut lsm = Lsm::new(Some(config));
    let mut expected: Vec<(i32, Vec<u8>)> = Vec::new();
    for i in 0..200 {
        let v = vec![(i % 251) as u8, (i % 7) as u8];
        lsm.put(i, v.clone());
        expected.push((i, v));
    }
    lsm.run_manager_step();
    for (k, v) in &expected {
        assert_eq!(lsm.get(k).as_ref(), Some(v));
    }
}

#[test]
fn close_preserves_reads() {
    let mut config = Config::default();
    config.set_memory_map_budget(1000).unwrap();
    let mut db = RustStore::new(Some(config));
    for i in 0..50 {
        db.put(i, vec![i as u8]);
    }
    db.close();
    for i in 0..50 {
        assert_eq!(db.get(&i), Some(vec![i as u8]));
    }
}

#[test]
fn test_invalid_block_size() {
    let mut config = Config::default();
    let res = config.set_block_size(0);
    assert!(res.is_err());
}

#[test]
fn test_invalid_memory_map_budget() {
    let mut config = Config::default();
    assert!(config.set_memory_map_budget(0).is_err());
    assert!(config.set_t(1).is_err());
}

#[test]
fn simple_test() {
    let config = Config::default();
    let mut db = RustStore::new(Some(config));
    let seed = [42; 32];
    let mut rng = ChaChaRng::from_seed(seed);
    let mut values = Vec::new();
    let mut keys: Vec<i32> = Vec::new();
    for i in 0..500 {
        values.push(gen_rand_bytes(&mut rng));
        keys.push(i as i32);
    }
    for i in 0..500 {
        db.put(keys[i], values[i].clone());
    }
    for i in 0..500 {
        let val = db.get(&keys[i]);
        assert_eq!(val.unwrap(), values[i]);
    }
}

#[test]
fn maintenance_preserves_reads_through_store() {
    let mut config = Config::default();
    config.set_memory_map_budget(300).unwrap();
    config.set_t(2).unwrap();
    let mut db = RustStore::new(Some(config));
    for i in 0..100 {
        db.put(i, vec![i as u8, 0x55]);
        if i % 10 == 0 {
            db.run_manager_step();
        }
    }
    for _ in 0..3 {
        db.run_manager_step();
    }
    for i in 0..100 {
        assert_eq!(db.get(&i), Some(vec![i as u8, 0x55]));
    }
}
