use crossbeam_skiplist::SkipMap;
use rand::Rng;
use rand_chacha::rand_core::SeedableRng;
use rand_chacha::ChaChaRng;
use rust_store::run::Run;
use rust_store::rust_store::Config;

// generates a random number of random bytes
fn gen_rand_bytes<T: Rng>(rng: &mut T) -> Vec<u8> {
    let num_bytes = rng.gen_range(8..32);
    let mut ret_vec = vec![0u8; num_bytes];
    rng.fill_bytes(&mut ret_vec);
    ret_vec
}

// Size in bytes approx
fn create_skipmap<T: Rng>(size: u64, rng: &mut T) -> SkipMap<i32, Option<Vec<u8>>> {
    let mut curr_size: u64 = 0;
    let map = SkipMap::new();
    while curr_size < size {
        let rand_key: i32 = rng.gen_range(-50000..50000);
        let rand_val = gen_rand_bytes(rng);
        curr_size += 4 + rand_val.len() as u64;
        map.insert(rand_key, Some(rand_val));
    }
    map
}

#[test]
fn small_run_from_memory_map() {
    let config = Config::default();
    let seed = [42; 32];
    let mut rng = ChaChaRng::from_seed(seed);
    let map = create_skipmap(1000, &mut rng);
    let run = Run::new_from_skipmap(&map, &config).unwrap();
    println!("Num pages {}", run.num_blocks);
    run.delete().unwrap();
}

#[test]
fn small_run_get_page_index() {
    let config = Config::default();
    let seed = [42; 32];
    let mut rng = ChaChaRng::from_seed(seed);
    let map = create_skipmap(1000, &mut rng);
    for i in 0..500 {
        map.insert(i, Some(vec![0u8, 20u8, 3u8]));
    }
    let run = Run::new_from_skipmap(&map, &config).unwrap();
    let page_index = run.get_page_index(&0).unwrap();
    assert_eq!(page_index, 0);
    let page_index_last = run.get_page_index(&499).unwrap();
    assert_eq!(page_index_last as usize, run.num_blocks - 1);
    run.delete().unwrap();
}

#[test]
fn small_run_get() {
    let config = Config::default();
    let seed = [42; 32];
    let mut rng = ChaChaRng::from_seed(seed);
    let map = create_skipmap(1000, &mut rng);
    for i in 0..250 {
        map.insert(i, Some(vec![i as u8]));
    }
    let run = Run::new_from_skipmap(&map, &config).unwrap();
    for i in 0..250 {
        let val = run.get_from_run(&i);
        assert_eq!(val.unwrap().unwrap()[0], i as u8);
    }
    run.delete().unwrap();
}

#[test]
fn small_run_get_no_result() {
    let config = Config::default();
    let map = SkipMap::new();
    for i in 0..250 {
        map.insert(i, Some(vec![i as u8]));
    }
    let run = Run::new_from_skipmap(&map, &config).unwrap();
    let val = run.get_from_run(&42000);
    assert!(val.is_none());
    run.delete().unwrap();
}

#[test]
fn run_get_from_block() {
    let config = Config::default();
    let map = SkipMap::new();
    for i in 0..250 {
        map.insert(i, Some(vec![i as u8]));
    }
    let run = Run::new_from_skipmap(&map, &config).unwrap();
    let val = run.get_from_block(0, &42000);
    assert!(val.unwrap().is_none());

    for i in 0..250 {
        let page_index = run.get_page_index(&i).unwrap();
        let val = run.get_from_block(page_index, &i);
        assert_eq!(val.unwrap(), Some(Some(vec![i as u8])));
    }

    run.delete().unwrap();
}

#[test]
fn empty_memtable_cannot_become_a_run() {
    let config = Config::default();
    let map: SkipMap<i32, Option<Vec<u8>>> = SkipMap::new();
    assert!(Run::new_from_skipmap(&map, &config).is_err());
}

#[test]
fn test_run_iter() {
    let config = Config::default();
    let map = SkipMap::new();
    for i in 0..3000 {
        map.insert(i, Some(vec![(i % 256) as u8]));
    }
    let run = Run::new_from_skipmap(&map, &config).unwrap();
    let mut it = run.iterate();
    let mut i = 0;
    while let Some(key_val) = it.next() {
        assert_eq!(key_val.key_ref(), i);
        assert_eq!(key_val.clone_value().unwrap()[0], (i % 256) as u8);
        i += 1;
    }
    assert_eq!(i, 3000);
    run.delete().unwrap();
}

#[test]
fn iterator_keys_strictly_increase() {
    let config = Config::default();
    let seed = [42; 32];
    let mut rng = ChaChaRng::from_seed(seed);
    let map = create_skipmap(20000, &mut rng);
    let run = Run::new_from_skipmap(&map, &config).unwrap();
    let mut it = run.iterate();
    let mut prev: Option<i32> = None;
    while let Some(item) = it.next() {
        let k = item.key_ref();
        if let Some(p) = prev {
            assert!(p < k, "keys must strictly increase: {} then {}", p, k);
        }
        prev = Some(k);
    }
}

#[test]
fn test_runs_to_iter_disjoint() {
    let config = Config::default();
    let left_map = SkipMap::new();
    let right_map = SkipMap::new();
    let left_size = 500;
    let right_size = 700;
    for i in 0..left_size {
        left_map.insert(i, Some(vec![(i % 255) as u8]));
    }
    for i in left_size..(left_size + right_size) {
        right_map.insert(i, Some(vec![(i % 255) as u8]));
    }
    let left_run = Run::new_from_skipmap(&left_map, &config).unwrap();
    let right_run = Run::new_from_skipmap(&right_map, &config).unwrap();

    let merged = Run::runs_to_iterator(&left_run, &right_run);

    let mut merge_iter_size = 0;
    let mut prev_key = -1;
    for item in &merged {
        merge_iter_size += 1;
        let this_key = item.key_ref();
        assert!(this_key > prev_key, "this_key {} > prev_key {}", this_key, prev_key);
        prev_key = this_key;
    }
    assert_eq!(merge_iter_size, left_size + right_size);
}

#[test]
fn merge_prefers_newer_run() {
    let config = Config::default();
    let newer_map = SkipMap::new();
    let older_map = SkipMap::new();
    for i in 0..100 {
        older_map.insert(i, Some(vec![1u8]));
    }
    for i in 50..150 {
        newer_map.insert(i, Some(vec![2u8]));
    }
    let newer = Run::new_from_skipmap(&newer_map, &config).unwrap();
    let older = Run::new_from_skipmap(&older_map, &config).unwrap();
    let merged = Run::runs_to_iterator(&newer, &older);
    assert_eq!(merged.len(), 150);
    for item in &merged {
        let k = item.key_ref();
        let v = item.clone_value().unwrap();
        if k >= 50 {
            assert_eq!(v, vec![2u8], "newer source must win for key {}", k);
        } else {
            assert_eq!(v, vec![1u8]);
        }
    }
}

#[test]
fn merge_memorymap_into_run() {
    let config = Config::default();
    let seed = [42; 32];
    let mut rng = ChaChaRng::from_seed(seed);
    let map = create_skipmap(2000, &mut rng);
    let run_size = 50;
    let memmap_size = 50;
    for i in 0..run_size {
        map.insert(i, Some(vec![i as u8]));
    }
    let run = Run::new_from_skipmap(&map, &config).unwrap();

    // overlap half the keys so the merge must take the new values
    let new_map = SkipMap::new();
    let mut new_keys = Vec::new();
    let mut new_vals = Vec::new();
    for i in run_size / 2..memmap_size + run_size / 2 {
        new_keys.push(i);
        new_vals.push(Some(vec![(i % 127 * 2) as u8]));
    }
    for i in 0..new_keys.len() {
        new_map.insert(new_keys[i], new_vals[i].clone());
    }

    let new_run = Run::merge_memory_map_into_run(&new_map, &run, &config).unwrap();
    for i in 0..new_keys.len() {
        let val = new_run.get_from_run(&new_keys[i]).unwrap().unwrap();
        assert_eq!(&val, new_vals[i].as_ref().unwrap());
    }
    // keys only in the old run keep their old values
    for i in 0..run_size / 2 {
        assert_eq!(new_run.get_from_run(&i).unwrap(), Some(vec![i as u8]));
    }
}

#[test]
fn test_new_from_merge() {
    let config = Config::default();
    let seed = [42; 32];
    let mut rng = ChaChaRng::from_seed(seed);
    let mut runs = Vec::new();
    for i in 0..5 {
        let map = create_skipmap(2000, &mut rng);
        map.insert(42, Some(vec![i as u8]));
        runs.push(Run::new_from_skipmap(&map, &config).unwrap());
    }
    let merged_run = Run::new_from_merge(&runs, &config, 2).unwrap();
    assert_eq!(merged_run.level, 2);
    assert_eq!(merged_run.get_from_run(&42).unwrap(), Some(vec![4u8]));
}

fn sweep_one_block_size(block_size: u64) {
    // ~4 MiB of random pairs, per the block-size sweep scenario.
    let mut config = Config::default();
    config.set_block_size(block_size).unwrap();
    let seed = [42; 32];
    let mut rng = ChaChaRng::from_seed(seed);
    let map = create_skipmap(4194304, &mut rng);
    let expected: Vec<i32> = map.iter().map(|e| *e.key()).collect();
    let run = Run::new_from_skipmap(&map, &config).unwrap();

    // every key inserted must be found, in order
    let mut it = run.iterate();
    let mut got: Vec<i32> = Vec::new();
    while let Some(item) = it.next() {
        got.push(item.key_ref());
    }
    assert_eq!(got, expected, "block size {}", block_size);

    // spot-check point reads through filter and fences
    for k in expected.iter().step_by(97) {
        assert!(run.get_from_run(k).is_some(), "block size {}", block_size);
    }

    // size: data blocks plus metadata (filter and fence pointers)
    let blocks_bytes = (run.num_blocks as u64) * block_size;
    let size = run.size_in_bytes() as u64;
    assert!(size >= blocks_bytes, "block size {}", block_size);
    assert_eq!(size - blocks_bytes, (run.get_memory_use_in_bytes()) as u64);

    // file layout: blocks, then the trailer, then its length
    let file = run.file_image();
    assert!(file.len() as u64 > blocks_bytes + 8, "block size {}", block_size);
    let tail: [u8; 8] = file[file.len() - 8..].try_into().unwrap();
    let trailer_len = u64::from_le_bytes(tail);
    assert_eq!(
        blocks_bytes + trailer_len + 8,
        file.len() as u64,
        "block size {}",
        block_size
    );
}

#[test]
fn block_size_sweep_512() {
    sweep_one_block_size(512);
}

#[test]
fn block_size_sweep_1024() {
    sweep_one_block_size(1024);
}

#[test]
fn block_size_sweep_2048() {
    sweep_one_block_size(2048);
}

#[test]
fn block_size_sweep_4096() {
    sweep_one_block_size(4096);
}

#[test]
fn block_size_sweep_8192() {
    sweep_one_block_size(8192);
}

#[test]
fn block_size_sweep_16384() {
    sweep_one_block_size(16384);
}

#[test]
fn block_size_sweep_32768() {
    sweep_one_block_size(32768);
}

#[test]
fn block_size_sweep_65536() {
    sweep_one_block_size(65536);
}

#[test]
fn block_size_sweep_131072() {
    sweep_one_block_size(131072);
}
