//! The embedded store and its configuration.

use vstd::prelude::*;

verus! {

use crate::lsm::{Lsm, LsmError};
use crate::run::RunError;

/// Errors surfaced by the store's public interface.
#[derive(Debug)]
pub enum RustStoreError {
    RunError(RunError),
    LsmError(LsmError),
    OptionParsingError(String),
    NotImplemented,
}

/// The kind of in-memory map backing the write buffer.
pub enum MemoryMapType {
    IntSkipList,
}

/// The options struct for the store.
pub struct Config {
    memory_map_budget: u64,
    bloom_filter_budget: u64,
    t: u64,
    k: u64,
    z: u64,
    directory: Option<String>,
    block_size: u64,
}

impl Config {
    pub closed spec fn spec_memory_map_budget(&self) -> u64 {
        self.memory_map_budget
    }

    pub closed spec fn spec_bloom_filter_budget(&self) -> u64 {
        self.bloom_filter_budget
    }

    pub closed spec fn spec_t(&self) -> u64 {
        self.t
    }

    pub closed spec fn spec_k(&self) -> u64 {
        self.k
    }

    pub closed spec fn spec_z(&self) -> u64 {
        self.z
    }

    pub closed spec fn spec_directory(&self) -> Option<Seq<char>> {
        self.directory.deep_view()
    }

    pub closed spec fn spec_block_size(&self) -> u64 {
        self.block_size
    }

    /// A usable configuration: a flush threshold, a block size, and a
    /// size ratio of at least two.
    pub open spec fn wf(&self) -> bool {
        &&& self.spec_memory_map_budget() >= 1
        &&& self.spec_block_size() >= 1
        &&& self.spec_t() >= 2
    }

    /// The default options: a 100 MiB memtable budget, a 10 MiB filter
    /// budget, size ratio 10, and 4 KiB blocks.
    pub fn default() -> (r: Config)
        ensures
            r.wf(),
            r.spec_memory_map_budget() == 0x6400000,
            r.spec_bloom_filter_budget() == 0xa00000,
            r.spec_t() == 10,
            r.spec_k() == 10,
            r.spec_z() == 10,
            r.spec_directory() is None,
            r.spec_block_size() == 4096,
    {
        Config {
            memory_map_budget: 100 * 1024 * 1024,
            bloom_filter_budget: 10 * 1024 * 1024,
            t: 10,
            k: 10,
            z: 10,
            directory: None,
            block_size: 4 * 1024,
        }
    }

    /// Sets the directory where run files are kept.
    pub fn set_directory(&mut self, dir: &str)
        ensures
            final(self).spec_directory() matches Some(d) && d == dir@,
            final(self).spec_memory_map_budget() == old(self).spec_memory_map_budget(),
            final(self).spec_bloom_filter_budget() == old(self).spec_bloom_filter_budget(),
            final(self).spec_t() == old(self).spec_t(),
            final(self).spec_k() == old(self).spec_k(),
            final(self).spec_z() == old(self).spec_z(),
            final(self).spec_block_size() == old(self).spec_block_size(),
            old(self).wf() ==> final(self).wf(),
    {
        self.directory = Some(dir.to_owned());
    }

    /// The configured directory, if one was set.
    pub fn directory(&self) -> (r: Option<&String>)
        ensures
            r.deep_view() == self.spec_directory(),
    {
        self.directory.as_ref()
    }

    /// Sets the flush threshold for the in-memory store; zero is
    /// rejected and leaves the configuration unchanged.
    pub fn set_memory_map_budget(&mut self, budget: u64) -> (r: Result<(), RustStoreError>)
        ensures
            budget == 0 ==> (r matches Err(e) && e is OptionParsingError
                && *final(self) == *old(self)),
            budget >= 1 ==> (r is Ok && final(self).spec_memory_map_budget() == budget
                && final(self).spec_bloom_filter_budget() == old(self).spec_bloom_filter_budget()
                && final(self).spec_t() == old(self).spec_t()
                && final(self).spec_k() == old(self).spec_k()
                && final(self).spec_z() == old(self).spec_z()
                && final(self).spec_directory() == old(self).spec_directory()
                && final(self).spec_block_size() == old(self).spec_block_size()),
            old(self).wf() ==> final(self).wf(),
    {
        if budget == 0 {
            return Err(RustStoreError::OptionParsingError("memory map budget cannot be 0".to_owned()));
        }
        self.memory_map_budget = budget;
        Ok(())
    }

    /// Sets the advisory memory budget for Bloom filters.
    pub fn set_bloom_filter_budget(&mut self, budget: u64)
        ensures
            final(self).spec_bloom_filter_budget() == budget,
            final(self).spec_memory_map_budget() == old(self).spec_memory_map_budget(),
            final(self).spec_t() == old(self).spec_t(),
            final(self).spec_k() == old(self).spec_k(),
            final(self).spec_z() == old(self).spec_z(),
            final(self).spec_directory() == old(self).spec_directory(),
            final(self).spec_block_size() == old(self).spec_block_size(),
            old(self).wf() ==> final(self).wf(),
    {
        self.bloom_filter_budget = budget;
    }

    /// Sets the block size for each run; zero is rejected and leaves
    /// the configuration unchanged.
    pub fn set_block_size(&mut self, size: u64) -> (r: Result<(), RustStoreError>)
        ensures
            size == 0 ==> (r matches Err(e) && e is OptionParsingError
                && *final(self) == *old(self)),
            size >= 1 ==> (r is Ok && final(self).spec_block_size() == size
                && final(self).spec_memory_map_budget() == old(self).spec_memory_map_budget()
                && final(self).spec_bloom_filter_budget() == old(self).spec_bloom_filter_budget()
                && final(self).spec_t() == old(self).spec_t()
                && final(self).spec_k() == old(self).spec_k()
                && final(self).spec_z() == old(self).spec_z()
                && final(self).spec_directory() == old(self).spec_directory()),
            old(self).wf() ==> final(self).wf(),
    {
        if size == 0 {
            return Err(RustStoreError::OptionParsingError("block size cannot be 0".to_owned()));
        }
        self.block_size = size;
        Ok(())
    }

    /// Sets the size ratio between levels: the number of runs a level
    /// accumulates before compaction; ratios below two are rejected.
    pub fn set_t(&mut self, t: u64) -> (r: Result<(), RustStoreError>)
        ensures
            t < 2 ==> (r matches Err(e) && e is OptionParsingError && *final(self) == *old(self)),
            t >= 2 ==> (r is Ok && final(self).spec_t() == t
                && final(self).spec_memory_map_budget() == old(self).spec_memory_map_budget()
                && final(self).spec_bloom_filter_budget() == old(self).spec_bloom_filter_budget()
                && final(self).spec_k() == old(self).spec_k()
                && final(self).spec_z() == old(self).spec_z()
                && final(self).spec_directory() == old(self).spec_directory()
                && final(self).spec_block_size() == old(self).spec_block_size()),
            old(self).wf() ==> final(self).wf(),
    {
        if t < 2 {
            return Err(RustStoreError::OptionParsingError("size ratio must be at least 2".to_owned()));
        }
        self.t = t;
        Ok(())
    }

    /// Sets the reserved per-level run cap; accepted and echoed, not
    /// yet enforced by the run manager.
    pub fn set_k(&mut self, k: u64)
        ensures
            final(self).spec_k() == k,
            final(self).spec_memory_map_budget() == old(self).spec_memory_map_budget(),
            final(self).spec_t() == old(self).spec_t(),
            final(self).spec_block_size() == old(self).spec_block_size(),
            old(self).wf() ==> final(self).wf(),
    {
        self.k = k;
    }

    /// Sets the reserved largest-level run cap; accepted and echoed,
    /// not yet enforced by the run manager.
    pub fn set_z(&mut self, z: u64)
        ensures
            final(self).spec_z() == z,
            final(self).spec_memory_map_budget() == old(self).spec_memory_map_budget(),
            final(self).spec_t() == old(self).spec_t(),
            final(self).spec_block_size() == old(self).spec_block_size(),
            old(self).wf() ==> final(self).wf(),
    {
        self.z = z;
    }

    /// The reserved per-level run cap.
    pub fn k(&self) -> (r: u64)
        ensures
            r == self.spec_k(),
    {
        self.k
    }

    /// The reserved largest-level run cap.
    pub fn z(&self) -> (r: u64)
        ensures
            r == self.spec_z(),
    {
        self.z
    }

    /// The advisory filter memory budget in bytes.
    pub fn bloom_filter_budget(&self) -> (r: u64)
        ensures
            r == self.spec_bloom_filter_budget(),
    {
        self.bloom_filter_budget
    }

    /// The flush threshold in bytes.
    pub fn memory_map_budget(&self) -> (r: u64)
        ensures
            r == self.spec_memory_map_budget(),
    {
        self.memory_map_budget
    }

    /// The size ratio between levels.
    pub fn t(&self) -> (r: u64)
        ensures
            r == self.spec_t(),
    {
        self.t
    }

    /// The block size in bytes.
    pub fn block_size(&self) -> (r: u64)
        ensures
            r == self.spec_block_size(),
    {
        self.block_size
    }
}


/// The embedded key-value store: an LSM engine under a point-read,
/// point-write interface.
pub struct RustStore {
    lsm: Lsm,
}

impl RustStore {
    /// The engine's answer for a key: live value, tombstone, or absent.
    pub closed spec fn spec_lookup(&self, key: i32) -> Option<Option<Seq<u8>>> {
        self.lsm.spec_lookup(key)
    }

    /// The value a read returns for a key.
    pub closed spec fn spec_get(&self, key: i32) -> Option<Seq<u8>> {
        self.lsm.spec_get(key)
    }

    pub closed spec fn wf(&self) -> bool {
        self.lsm.wf()
    }

    /// The engine the store wraps; its open contracts state what the
    /// forwarding methods below do.
    pub closed spec fn spec_lsm(&self) -> Lsm {
        self.lsm
    }

    /// What a read returns, in terms of what the store holds: the live
    /// value bound to the key, and absence for a tombstone or a
    /// never-written key. This ties `get`'s contract to the `put`,
    /// `delete` and maintenance contracts, which all speak of
    /// `spec_lookup`.
    pub proof fn lemma_get_is_lookup(s: &RustStore, key: i32)
        ensures
            s.spec_get(key) == match s.spec_lookup(key) {
                Some(Some(v)) => Some(v),
                _ => None,
            },
    {
    }

    /// A new store over the given configuration, or the default one;
    /// it stores nothing yet.
    pub fn new(config: Option<Config>) -> (r: RustStore)
        requires
            config matches Some(c) ==> c.wf(),
        ensures
            r.wf(),
            forall|k: i32| r.spec_lookup(k) is None,
    {
        RustStore { lsm: Lsm::new(config) }
    }

    /// The newest value written for the key, or absence after a delete
    /// or for a never-written key.
    pub fn get(&self, key: &i32) -> (r: Option<Vec<u8>>)
        requires
            self.wf(),
        ensures
            r.deep_view() == self.spec_get(*key),
    {
        self.lsm.get(key)
    }

    /// Stores a value under a key.
    pub fn put(&mut self, key: i32, value: Vec<u8>)
        requires
            old(self).wf(),
        ensures
            final(self).wf(),
            final(self).spec_lookup(key) == Some(Some(value@)),
            forall|k2: i32| k2 != key ==> final(self).spec_lookup(k2) == old(self).spec_lookup(k2),
    {
        self.lsm.put(key, value);
    }

    /// Deletes the value under a key.
    pub fn delete(&mut self, key: &i32)
        requires
            old(self).wf(),
        ensures
            final(self).wf(),
            final(self).spec_lookup(*key) == Some(None::<Seq<u8>>),
            forall|k2: i32| k2 != *key ==> final(self).spec_lookup(k2) == old(self).spec_lookup(k2),
    {
        self.lsm.delete(key);
    }

    /// One background maintenance cycle: an over-budget active
    /// memtable is flushed, and no level that can be compacted is left
    /// holding its size ratio in runs; no key's answer changes.
    pub fn run_manager_step(&mut self)
        requires
            old(self).wf(),
        ensures
            final(self).wf(),
            forall|k: i32| final(self).spec_lookup(k) == old(self).spec_lookup(k),
            final(self).spec_lsm().spec_shutdown() == old(self).spec_lsm().spec_shutdown(),
            (old(self).spec_lsm().spec_flush_ok() && (old(self).spec_lsm().spec_shutdown()
                || old(self).spec_lsm().spec_active_memory_use()
                > old(self).spec_lsm().spec_config().spec_memory_map_budget()))
                ==> (final(self).spec_lsm().spec_active() =~= Map::empty()
                && final(self).spec_lsm().spec_active_memory_use() == 0),
            !old(self).spec_lsm().spec_shutdown() ==> (forall|j: int|
                0 <= j < old(self).spec_lsm().spec_levels().len() && j + 2 <= usize::MAX ==> ((
                #[trigger] final(self).spec_lsm().spec_levels()[j].runs@).len()
                    < old(self).spec_lsm().spec_config().spec_t() || !crate::lsm::spec_compact_ok(
                    final(self).spec_lsm().spec_levels()[j].runs@,
                    old(self).spec_lsm().spec_config(),
                ))),
    {
        self.lsm.run_manager_step();
    }

    /// Closes the store: outstanding writes are flushed into runs and
    /// the engine winds down; no key's answer changes.
    pub fn close(&mut self)
        requires
            old(self).wf(),
        ensures
            final(self).wf(),
            forall|k: i32| final(self).spec_lookup(k) == old(self).spec_lookup(k),
            final(self).spec_lsm().spec_shutdown(),
            old(self).spec_lsm().spec_flush_ok() ==> (final(self).spec_lsm().spec_active()
                =~= Map::empty() && final(self).spec_lsm().spec_active_memory_use() == 0),
    {
        self.lsm.close();
    }

    /// Every run the store holds, tagged with its 1-based level.
    pub closed spec fn spec_tagged_runs(&self) -> Seq<(int, crate::run::Run)> {
        crate::lsm::spec_tagged_runs(self.lsm.spec_levels(), 1)
    }

    /// The on-disk image of every run, tagged with its 1-based level:
    /// what an integrator persists as the store's run files.
    pub fn run_file_images(&self) -> (r: Vec<(usize, Vec<u8>)>)
        requires
            self.wf(),
        ensures
            r@.len() == self.spec_tagged_runs().len(),
            forall|j: int|
                0 <= j < r@.len() ==> (#[trigger] r@[j]).0 == self.spec_tagged_runs()[j].0
                    && r@[j].1@ == self.spec_tagged_runs()[j].1.spec_file_image(),
    {
        self.lsm.run_file_images()
    }

    /// The engine beneath the store, for inspection.
    pub fn lsm(&self) -> (r: &Lsm)
        ensures
            self.wf() ==> r.wf(),
            forall|k: i32| r.spec_lookup(k) == self.spec_lookup(k),
    {
        &self.lsm
    }
}

} // verus!
