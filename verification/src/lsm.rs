//! The LSM engine: two memtables with an atomic active/inactive
//! handoff, a vector of levels, and the run-manager step that flushes
//! full memtables and compacts full levels.
//!
//! The engine's view is what a point read answers for each key: the
//! active memtable first, then the other memtable, then each level in
//! order, each level consulting its runs newest first. Flushing and
//! compacting never change that view.

use vstd::prelude::*;

verus! {

use crate::codec::item_size_ok;
use crate::memtable::{skip_map_get, skip_map_insert, skip_map_model, skip_map_new, spec_entries};
use crate::merge::items_lookup;
use crate::run::{
    runs_lookup, spec_blocks_fit, spec_merged_runs, Level, Run, RunError,
};
use crate::rust_store::Config;

/// Errors surfaced by the engine.
#[derive(Debug)]
pub enum LsmError {
    RunError(RunError),
    NotImplemented,
}

/// A snapshot of the on-disk layout: one list of run file names per
/// level, oldest first.
pub struct Catalogue {
    pub levels: Vec<Vec<String>>,
}

/// What a map of pending writes stores under a key: the live value, the
/// tombstone, or nothing.
pub open spec fn mem_lookup(m: Map<int, Option<Seq<u8>>>, key: i32) -> Option<Option<Seq<u8>>> {
    if m.dom().contains(key as int) {
        Some(m[key as int])
    } else {
        None
    }
}

/// First-hit lookup over the levels, starting at index `j`.
pub open spec fn levels_lookup_from(levels: Seq<Level>, j: int, key: i32) -> Option<
    Option<Seq<u8>>,
>
    decreases levels.len() - j,
{
    if j < 0 || j >= levels.len() {
        None
    } else if runs_lookup(levels[j].runs@, key) is Some {
        runs_lookup(levels[j].runs@, key)
    } else {
        levels_lookup_from(levels, j + 1, key)
    }
}

/// Two level lists that answer alike from index `j` on look up alike
/// from index `j` on.
proof fn lemma_levels_lookup_agree(l1: Seq<Level>, l2: Seq<Level>, j: int, key: i32)
    requires
        l1.len() == l2.len(),
        forall|jj: int|
            j <= jj < l1.len() ==> runs_lookup((#[trigger] l1[jj]).runs@, key) == runs_lookup(
                l2[jj].runs@,
                key,
            ),
    ensures
        levels_lookup_from(l1, j, key) == levels_lookup_from(l2, j, key),
    decreases l1.len() - j,
{
    if 0 <= j < l1.len() {
        lemma_levels_lookup_agree(l1, l2, j + 1, key);
    }
}

/// Whether merging a level's runs into one run at the next level would
/// succeed: every greedy block of the merged item sequence compresses
/// into the configured block size.
pub open spec fn spec_compact_ok(runs: Seq<Run>, config: Config) -> bool {
    &&& config.spec_block_size() <= usize::MAX
    &&& (forall|i: int|
        0 <= i < spec_merged_runs(runs).len() ==> item_size_ok(
            #[trigger] spec_merged_runs(runs)[i],
        ))
    &&& spec_blocks_fit(spec_merged_runs(runs), 0, config.spec_block_size() as int)
}

/// The LSM engine.
pub struct Lsm {
    primary_memory_map: crossbeam_skiplist::SkipMap<i32, Option<Vec<u8>>>,
    secondary_memory_map: crossbeam_skiplist::SkipMap<i32, Option<Vec<u8>>>,
    use_primary_map: bool,
    primary_memory_map_memory_use: u64,
    secondary_memory_map_memory_use: u64,
    config: Config,
    levels: Vec<Level>,
    time_to_shutdown: bool,
}

impl Lsm {
    pub closed spec fn spec_primary(&self) -> Map<int, Option<Seq<u8>>> {
        skip_map_model(self.primary_memory_map)
    }

    pub closed spec fn spec_secondary(&self) -> Map<int, Option<Seq<u8>>> {
        skip_map_model(self.secondary_memory_map)
    }

    pub closed spec fn spec_use_primary(&self) -> bool {
        self.use_primary_map
    }

    /// The memtable new writes go to.
    pub open spec fn spec_active(&self) -> Map<int, Option<Seq<u8>>> {
        if self.spec_use_primary() {
            self.spec_primary()
        } else {
            self.spec_secondary()
        }
    }

    /// The other memtable, empty whenever the engine is quiescent.
    pub open spec fn spec_inactive(&self) -> Map<int, Option<Seq<u8>>> {
        if self.spec_use_primary() {
            self.spec_secondary()
        } else {
            self.spec_primary()
        }
    }

    pub closed spec fn spec_levels(&self) -> Seq<Level> {
        self.levels@
    }

    pub closed spec fn spec_config(&self) -> Config {
        self.config
    }

    /// Whether the engine has been asked to wind down.
    pub closed spec fn spec_shutdown(&self) -> bool {
        self.time_to_shutdown
    }

    pub closed spec fn spec_active_memory_use(&self) -> u64 {
        if self.use_primary_map {
            self.primary_memory_map_memory_use
        } else {
            self.secondary_memory_map_memory_use
        }
    }

    /// The byte counter of the inactive memtable.
    pub open spec fn spec_inactive_memory_use(&self) -> u64 {
        if self.spec_use_primary() {
            self.spec_secondary_memory_use()
        } else {
            self.spec_primary_memory_use()
        }
    }

    /// Whether serializing the active memtable into a run would
    /// succeed: it holds at least one entry, and every greedy block of
    /// its sorted entries compresses into the configured block size.
    pub open spec fn spec_flush_ok(&self) -> bool {
        let s = spec_entries(self.spec_active());
        &&& s.len() >= 1
        &&& self.spec_config().spec_block_size() <= usize::MAX
        &&& (forall|i: int| 0 <= i < s.len() ==> item_size_ok(#[trigger] s[i]))
        &&& spec_blocks_fit(s, 0, self.spec_config().spec_block_size() as int)
    }

    /// A quiescent engine: a usable configuration, well-formed levels,
    /// and an empty inactive memtable with a reset byte counter.
    pub open spec fn wf(&self) -> bool {
        &&& self.spec_config().wf()
        &&& (forall|i: int|
            0 <= i < self.spec_levels().len() ==> (#[trigger] self.spec_levels()[i]).wf())
        &&& self.spec_inactive() =~= Map::empty()
        &&& self.spec_inactive_memory_use() == 0
    }

    /// What a point read answers for a key: the active memtable first,
    /// then the other memtable, then the levels in order.
    pub open spec fn spec_lookup(&self, key: i32) -> Option<Option<Seq<u8>>> {
        if mem_lookup(self.spec_active(), key) is Some {
            mem_lookup(self.spec_active(), key)
        } else if mem_lookup(self.spec_inactive(), key) is Some {
            mem_lookup(self.spec_inactive(), key)
        } else {
            levels_lookup_from(self.spec_levels(), 0, key)
        }
    }

    /// The value a point read returns: a live value, or absence for a
    /// tombstone or a never-written key.
    pub open spec fn spec_get(&self, key: i32) -> Option<Seq<u8>> {
        match self.spec_lookup(key) {
            Some(Some(v)) => Some(v),
            _ => None,
        }
    }

    /// A fresh engine over the given configuration (or the default),
    /// storing nothing.
    pub fn new(config: Option<Config>) -> (r: Lsm)
        requires
            config matches Some(c) ==> c.wf(),
        ensures
            r.wf(),
            forall|k: i32| r.spec_lookup(k) is None,
            r.spec_active() =~= Map::empty(),
            r.spec_inactive() =~= Map::empty(),
            r.spec_use_primary(),
            r.spec_primary_memory_use() == 0,
            r.spec_secondary_memory_use() == 0,
            r.spec_levels() =~= Seq::empty(),
            !r.spec_shutdown(),
            config matches Some(c) ==> r.spec_config() == c,
            config is None ==> r.spec_config().wf(),
    {
        let config_to_use = match config {
            Some(config) => config,
            None => Config::default(),
        };
        let r = Lsm {
            primary_memory_map: skip_map_new(),
            secondary_memory_map: skip_map_new(),
            use_primary_map: true,
            primary_memory_map_memory_use: 0,
            secondary_memory_map_memory_use: 0,
            config: config_to_use,
            levels: Vec::new(),
            time_to_shutdown: false,
        };
        r
    }

    /// Answers the newest value written for the key: the value of the
    /// most recent put, or nothing after a delete or for an unknown key.
    pub fn get(&self, key: &i32) -> (r: Option<Vec<u8>>)
        requires
            self.wf(),
        ensures
            r.deep_view() == self.spec_get(*key),
    {
        let first = if self.use_primary_map {
            &self.primary_memory_map
        } else {
            &self.secondary_memory_map
        };
        let second = if self.use_primary_map {
            &self.secondary_memory_map
        } else {
            &self.primary_memory_map
        };
        let maybe_res = skip_map_get(first, key);
        if let Some(v) = maybe_res {
            proof {
                assert(v.deep_view() =~~= self.spec_active()[*key as int]);
            }
            return v;
        }
        let maybe_res = skip_map_get(second, key);
        if let Some(v) = maybe_res {
            proof {
                assert(self.spec_inactive().dom().contains(*key as int));
                assert(false);
            }
            return v;
        }
        let mut i: usize = 0;
        while i < self.levels.len()
            invariant
                self.wf(),
                i <= self.spec_levels().len(),
                mem_lookup(self.spec_active(), *key) is None,
                mem_lookup(self.spec_inactive(), *key) is None,
                levels_lookup_from(self.spec_levels(), 0, *key) == levels_lookup_from(
                    self.spec_levels(),
                    i as int,
                    *key,
                ),
            decreases self.spec_levels().len() - i,
        {
            let maybe_res = self.levels[i].get_from_level(key);
            if maybe_res.is_some() {
                proof {
                    let lv = self.spec_levels()[i as int];
                    assert(maybe_res.deep_view() == runs_lookup(lv.runs@, *key));
                    assert(maybe_res is Some);
                    assert(runs_lookup(lv.runs@, *key) is Some);
                    assert(levels_lookup_from(self.spec_levels(), i as int, *key) == runs_lookup(
                        lv.runs@,
                        *key,
                    ));
                    assert(mem_lookup(self.spec_active(), *key) is None);
                    assert(mem_lookup(self.spec_inactive(), *key) is None);
                    assert(maybe_res.deep_view() == self.spec_lookup(*key));
                }
                return match maybe_res {
                    Some(v) => v,
                    None => None,
                };
            }
            i = i + 1;
            proof {
                let lv = self.spec_levels()[i - 1];
                assert(runs_lookup(lv.runs@, *key) is None);
            }
        }
        None
    }

    /// Records a deletion: a tombstone for the key goes to the active
    /// memtable, overriding any older value during reads and merges.
    pub fn delete(&mut self, key: &i32)
        requires
            old(self).wf(),
        ensures
            final(self).wf(),
            final(self).spec_lookup(*key) == Some(None::<Seq<u8>>),
            forall|k2: i32| k2 != *key ==> final(self).spec_lookup(k2) == old(self).spec_lookup(k2),
            final(self).spec_config() == old(self).spec_config(),
            final(self).spec_levels() == old(self).spec_levels(),
            final(self).spec_use_primary() == old(self).spec_use_primary(),
            final(self).spec_shutdown() == old(self).spec_shutdown(),
            final(self).spec_active() == old(self).spec_active().insert(
                *key as int,
                None::<Seq<u8>>,
            ),
            final(self).spec_active_memory_use() == if old(self).spec_active_memory_use() + 4
                <= u64::MAX {
                old(self).spec_active_memory_use() + 4
            } else {
                u64::MAX as int
            },
    {
        if self.use_primary_map {
            skip_map_insert(&mut self.primary_memory_map, *key, None);
            self.primary_memory_map_memory_use = saturating_add_u64(
                self.primary_memory_map_memory_use,
                4,
            );
        } else {
            skip_map_insert(&mut self.secondary_memory_map, *key, None);
            self.secondary_memory_map_memory_use = saturating_add_u64(
                self.secondary_memory_map_memory_use,
                4,
            );
        }
    }

    /// Stores a value: the pair goes to the active memtable and is the
    /// answer of every later read of the key until overwritten.
    pub fn put(&mut self, key: i32, val: Vec<u8>)
        requires
            old(self).wf(),
        ensures
            final(self).wf(),
            final(self).spec_lookup(key) == Some(Some(val@)),
            forall|k2: i32| k2 != key ==> final(self).spec_lookup(k2) == old(self).spec_lookup(k2),
            final(self).spec_config() == old(self).spec_config(),
            final(self).spec_levels() == old(self).spec_levels(),
            final(self).spec_use_primary() == old(self).spec_use_primary(),
            final(self).spec_shutdown() == old(self).spec_shutdown(),
            final(self).spec_active() == old(self).spec_active().insert(key as int, Some(val@)),
            final(self).spec_active_memory_use() == if old(self).spec_active_memory_use() + 4
                + val@.len() <= u64::MAX {
                old(self).spec_active_memory_use() + 4 + val@.len()
            } else {
                u64::MAX as int
            },
    {
        let cost = saturating_add_u64(4, val.len() as u64);
        let ghost v = val@;
        if self.use_primary_map {
            skip_map_insert(&mut self.primary_memory_map, key, Some(val));
            self.primary_memory_map_memory_use = saturating_add_u64(
                self.primary_memory_map_memory_use,
                cost,
            );
        } else {
            skip_map_insert(&mut self.secondary_memory_map, key, Some(val));
            self.secondary_memory_map_memory_use = saturating_add_u64(
                self.secondary_memory_map_memory_use,
                cost,
            );
        }
        proof {
            assert(self.spec_active()[key as int] =~~= Some(v));
        }
    }
}

/// The sum capped at the largest representable value; the memtable byte
/// counters are approximate and must never wrap.
fn saturating_add_u64(a: u64, b: u64) -> (r: u64)
    ensures
        r == if a + b <= u64::MAX {
            a + b
        } else {
            u64::MAX as int
        },
{
    if a > u64::MAX - b {
        u64::MAX
    } else {
        a + b
    }
}

impl Lsm {
    /// Appends a freshly written run to the given 1-based level,
    /// creating the level when it does not exist yet. The new run
    /// stands last, as the newest of its level.
    pub fn add_run_to_level(&mut self, run: Run, level: usize)
        requires
            old(self).wf(),
            run.wf(),
            1 <= level <= old(self).spec_levels().len() + 1,
        ensures
            final(self).wf(),
            final(self).spec_levels().len() == if level == old(self).spec_levels().len() + 1 {
                old(self).spec_levels().len() + 1
            } else {
                old(self).spec_levels().len() + 0
            },
            forall|j: int|
                0 <= j < old(self).spec_levels().len() && j != level - 1
                    ==> final(self).spec_levels()[j] == old(self).spec_levels()[j],
            final(self).spec_levels()[level - 1].runs@
                == if level <= old(self).spec_levels().len() {
                old(self).spec_levels()[level - 1].runs@.push(run)
            } else {
                seq![run]
            },
            final(self).spec_primary() == old(self).spec_primary(),
            final(self).spec_secondary() == old(self).spec_secondary(),
            final(self).spec_use_primary() == old(self).spec_use_primary(),
            final(self).spec_config() == old(self).spec_config(),
            final(self).spec_active_memory_use() == old(self).spec_active_memory_use(),
            final(self).spec_primary_memory_use() == old(self).spec_primary_memory_use(),
            final(self).spec_secondary_memory_use() == old(self).spec_secondary_memory_use(),
            final(self).spec_shutdown() == old(self).spec_shutdown(),
    {
        if self.levels.len() < level {
            let mut runs: Vec<Run> = Vec::new();
            runs.push(run);
            self.levels.push(Level { num_runs: 1, runs });
            proof {
                assert(self.spec_levels()[level - 1].runs@ =~= seq![run]);
            }
        } else {
            let mut lvl = self.levels.remove(level - 1);
            lvl.runs.push(run);
            lvl.num_runs = lvl.runs.len();
            self.levels.insert(level - 1, lvl);
            proof {
                assert(forall|j: int|
                    0 <= j < old(self).spec_levels().len() && j != level - 1
                        ==> #[trigger] self.spec_levels()[j] == old(self).spec_levels()[j]);
            }
        }
    }

    pub closed spec fn spec_primary_memory_use(&self) -> u64 {
        self.primary_memory_map_memory_use
    }

    pub closed spec fn spec_secondary_memory_use(&self) -> u64 {
        self.secondary_memory_map_memory_use
    }

    /// Whether the primary memtable's byte counter has crossed the
    /// flush threshold.
    fn time_to_merge_primary_memmap(&self) -> (r: bool)
        ensures
            r == (self.spec_primary_memory_use() > self.spec_config().spec_memory_map_budget()),
    {
        self.primary_memory_map_memory_use > self.config.memory_map_budget()
    }

    /// Whether the secondary memtable's byte counter has crossed the
    /// flush threshold.
    fn time_to_merge_secondary_memmap(&self) -> (r: bool)
        ensures
            r == (self.spec_secondary_memory_use() > self.spec_config().spec_memory_map_budget()),
    {
        self.secondary_memory_map_memory_use > self.config.memory_map_budget()
    }

    /// Durability across flush: serializes the active memtable into a
    /// new level-1 run, redirects writes to the other memtable, and
    /// clears the flushed one — and every key still reads the same
    /// value afterwards. The memtable is left untouched when writing
    /// the run fails.
    fn flush_active(&mut self) -> (r: Result<(), LsmError>)
        requires
            old(self).wf(),
        ensures
            final(self).wf(),
            forall|k: i32| final(self).spec_lookup(k) == old(self).spec_lookup(k),
            final(self).spec_config() == old(self).spec_config(),
            final(self).spec_shutdown() == old(self).spec_shutdown(),
            r is Ok <==> old(self).spec_flush_ok(),
            r is Ok ==> final(self).spec_active() =~= Map::empty()
                && final(self).spec_active_memory_use() == 0,
            r is Ok ==> final(self).spec_levels().len() == if old(self).spec_levels().len() == 0 {
                1int
            } else {
                old(self).spec_levels().len() as int
            },
            r is Ok ==> (forall|j: int|
                1 <= j < old(self).spec_levels().len() ==> final(self).spec_levels()[j] == old(
                    self,
                ).spec_levels()[j]),
            r is Ok ==> final(self).spec_levels()[0].runs@.last()@ == spec_entries(
                old(self).spec_active(),
            ),
            r is Ok ==> final(self).spec_levels()[0].runs@.drop_last() == if old(
                self,
            ).spec_levels().len() >= 1 {
                old(self).spec_levels()[0].runs@
            } else {
                Seq::empty()
            },
            r is Err ==> *final(self) == *old(self),
    {
        let ghost m = self.spec_active();
        let ghost l_old = self.spec_levels();
        let run = if self.use_primary_map {
            match Run::new_from_skipmap(&self.primary_memory_map, &self.config) {
                Ok(run) => run,
                Err(_e) => {
                    proof {
                        assert(!old(self).spec_flush_ok());
                    }
                    return Err(LsmError::RunError(RunError::RunCreationError));
                },
            }
        } else {
            match Run::new_from_skipmap(&self.secondary_memory_map, &self.config) {
                Ok(run) => run,
                Err(_e) => {
                    proof {
                        assert(!old(self).spec_flush_ok());
                    }
                    return Err(LsmError::RunError(RunError::RunCreationError));
                },
            }
        };
        let ghost run_g = run;
        proof {
            assert(old(self).spec_flush_ok());
            assert(run_g@ == spec_entries(m));
            assert(forall|k: i32| items_lookup(run_g@, k) == mem_lookup(m, k));
        }
        if self.use_primary_map {
            self.primary_memory_map = skip_map_new();
            self.primary_memory_map_memory_use = 0;
            self.use_primary_map = false;
            self.add_run_to_level(run, 1);
        } else {
            self.secondary_memory_map = skip_map_new();
            self.secondary_memory_map_memory_use = 0;
            self.use_primary_map = true;
            self.add_run_to_level(run, 1);
        }
        proof {
            self.lemma_flush_preserves(*old(self), m, run_g, l_old);
            assert(self.spec_levels()[0].runs@.last() == run_g);
            assert(self.spec_levels()[0].runs@.drop_last() =~= if l_old.len() >= 1 {
                l_old[0].runs@
            } else {
                Seq::empty()
            });
        }
        Ok(())
    }

    /// After a flush, every key reads as before: a key the memtable
    /// held is now answered by the new newest level-1 run, and every
    /// other key is answered as it always was.
    proof fn lemma_flush_preserves(
        &self,
        pre: Lsm,
        m: Map<int, Option<Seq<u8>>>,
        run: Run,
        l_old: Seq<Level>,
    )
        requires
            pre.wf(),
            self.wf(),
            m == pre.spec_active(),
            l_old == pre.spec_levels(),
            forall|k: i32| items_lookup(run@, k) == mem_lookup(m, k),
            self.spec_active() =~= Map::empty(),
            self.spec_inactive() =~= Map::empty(),
            self.spec_levels().len() == if l_old.len() == 0 {
                1int
            } else {
                l_old.len() as int
            },
            forall|j: int| 1 <= j < l_old.len() ==> self.spec_levels()[j] == l_old[j],
            self.spec_levels()[0].runs@ == if l_old.len() >= 1 {
                l_old[0].runs@.push(run)
            } else {
                seq![run]
            },
        ensures
            forall|k: i32| self.spec_lookup(k) == pre.spec_lookup(k),
    {
        assert forall|k: i32| self.spec_lookup(k) == pre.spec_lookup(k) by {
            let new_runs = self.spec_levels()[0].runs@;
            assert(new_runs.last() == run);
            if l_old.len() >= 1 {
                assert(new_runs.drop_last() =~= l_old[0].runs@);
            } else {
                assert(new_runs.drop_last() =~= Seq::<Run>::empty());
            }
            if mem_lookup(m, k) is Some {
                assert(items_lookup(run@, k) == mem_lookup(m, k));
                assert(runs_lookup(new_runs, k) == mem_lookup(m, k));
                assert(self.spec_lookup(k) == levels_lookup_from(self.spec_levels(), 0, k));
            } else {
                assert(items_lookup(run@, k) is None);
                if l_old.len() >= 1 {
                    assert(runs_lookup(new_runs, k) == runs_lookup(l_old[0].runs@, k));
                    lemma_levels_lookup_agree(self.spec_levels(), l_old, 1, k);
                } else {
                    assert(runs_lookup(new_runs, k) is None);
                    assert(levels_lookup_from(self.spec_levels(), 1, k) is None);
                    assert(levels_lookup_from(l_old, 0, k) is None);
                }
            }
        }
    }
}

/// Two level lists that agree up to `i` and look up alike from `i` look
/// up alike everywhere before `i` too.
proof fn lemma_levels_prefix(l1: Seq<Level>, l2: Seq<Level>, j: int, i: int, key: i32)
    requires
        0 <= j <= i,
        i <= l1.len(),
        i <= l2.len(),
        forall|jj: int|
            j <= jj < i ==> runs_lookup((#[trigger] l1[jj]).runs@, key) == runs_lookup(
                l2[jj].runs@,
                key,
            ),
        levels_lookup_from(l1, i, key) == levels_lookup_from(l2, i, key),
    ensures
        levels_lookup_from(l1, j, key) == levels_lookup_from(l2, j, key),
    decreases i - j,
{
    if j < i {
        lemma_levels_prefix(l1, l2, j + 1, i, key);
    }
}

impl Lsm {
    /// After a compaction of level index `i`, every key reads as
    /// before: a key one of the old runs answered is now answered by
    /// the merged run one level down, with the newest old run winning,
    /// and every other key is answered as it always was.
    proof fn lemma_compact_preserves(&self, pre: Lsm, i: int, merged: Run)
        requires
            pre.wf(),
            self.wf(),
            0 <= i < pre.spec_levels().len(),
            self.spec_primary() == pre.spec_primary(),
            self.spec_secondary() == pre.spec_secondary(),
            self.spec_use_primary() == pre.spec_use_primary(),
            forall|k: i32|
                items_lookup(merged@, k) == runs_lookup(pre.spec_levels()[i].runs@, k),
            self.spec_levels().len() == if i + 1 < pre.spec_levels().len() {
                pre.spec_levels().len() + 0
            } else {
                pre.spec_levels().len() + 1
            },
            forall|j: int|
                0 <= j < pre.spec_levels().len() && j != i && j != i + 1
                    ==> #[trigger] self.spec_levels()[j] == pre.spec_levels()[j],
            self.spec_levels()[i].runs@ =~= Seq::<Run>::empty(),
            self.spec_levels()[i + 1].runs@ == if i + 1 < pre.spec_levels().len() {
                pre.spec_levels()[i + 1].runs@.push(merged)
            } else {
                seq![merged]
            },
        ensures
            forall|k: i32| self.spec_lookup(k) == pre.spec_lookup(k),
    {
        let l1 = self.spec_levels();
        let l2 = pre.spec_levels();
        assert forall|k: i32| self.spec_lookup(k) == pre.spec_lookup(k) by {
            let new_runs = l1[i + 1].runs@;
            assert(new_runs.last() == merged);
            if i + 1 < l2.len() {
                assert(new_runs.drop_last() =~= l2[i + 1].runs@);
            } else {
                assert(new_runs.drop_last() =~= Seq::<Run>::empty());
            }
            assert(runs_lookup(l1[i].runs@, k) is None);
            assert(levels_lookup_from(l1, i, k) == levels_lookup_from(l1, i + 1, k));
            if items_lookup(merged@, k) is Some {
                assert(runs_lookup(new_runs, k) == items_lookup(merged@, k));
                assert(levels_lookup_from(l1, i + 1, k) == runs_lookup(new_runs, k));
                assert(levels_lookup_from(l2, i, k) == runs_lookup(l2[i].runs@, k));
            } else {
                assert(runs_lookup(l2[i].runs@, k) is None);
                assert(levels_lookup_from(l2, i, k) == levels_lookup_from(l2, i + 1, k));
                if i + 1 < l2.len() {
                    assert(runs_lookup(new_runs, k) == runs_lookup(l2[i + 1].runs@, k));
                    if runs_lookup(l2[i + 1].runs@, k) is Some {
                        assert(levels_lookup_from(l1, i + 1, k) == runs_lookup(new_runs, k));
                        assert(levels_lookup_from(l2, i + 1, k) == runs_lookup(
                            l2[i + 1].runs@,
                            k,
                        ));
                    } else {
                        lemma_levels_lookup_agree(l1, l2, i + 2, k);
                        assert(levels_lookup_from(l1, i + 1, k) == levels_lookup_from(
                            l1,
                            i + 2,
                            k,
                        ));
                        assert(levels_lookup_from(l2, i + 1, k) == levels_lookup_from(
                            l2,
                            i + 2,
                            k,
                        ));
                    }
                } else {
                    assert(runs_lookup(new_runs, k) is None);
                    assert(levels_lookup_from(l1, i + 2, k) is None);
                    assert(levels_lookup_from(l1, i + 1, k) is None);
                    assert(levels_lookup_from(l2, i + 1, k) is None);
                }
            }
            lemma_levels_prefix(l1, l2, 0, i, k);
        }
    }

    /// Compaction equivalence: merges every run of level index `i`
    /// (1-based level `i + 1`) into one run appended to the next level,
    /// then empties the level — and every key still reads the same
    /// value afterwards. On a failed merge the level is left untouched.
    fn compact_level(&mut self, i: usize)
        requires
            old(self).wf(),
            i < old(self).spec_levels().len(),
            old(self).spec_levels()[i as int].runs@.len() >= 2,
        ensures
            final(self).wf(),
            forall|k: i32| final(self).spec_lookup(k) == old(self).spec_lookup(k),
            final(self).spec_config() == old(self).spec_config(),
            final(self).spec_levels().len() >= old(self).spec_levels().len(),
            final(self).spec_active() == old(self).spec_active(),
            final(self).spec_active_memory_use() == old(self).spec_active_memory_use(),
            final(self).spec_shutdown() == old(self).spec_shutdown(),
            forall|j: int|
                0 <= j < old(self).spec_levels().len() && j != i && j != i + 1
                    ==> final(self).spec_levels()[j] == old(self).spec_levels()[j],
            (i + 2 <= usize::MAX && spec_compact_ok(
                old(self).spec_levels()[i as int].runs@,
                old(self).spec_config(),
            )) ==> (final(self).spec_levels()[i as int].runs@.len() == 0
                && final(self).spec_levels()[i + 1].runs@.last()@ == spec_merged_runs(
                old(self).spec_levels()[i as int].runs@,
            )),
            !(i + 2 <= usize::MAX && spec_compact_ok(
                old(self).spec_levels()[i as int].runs@,
                old(self).spec_config(),
            )) ==> *final(self) == *old(self),
    {
        if i > usize::MAX - 2 {
            return ;
        }
        let ghost pre = *self;
        let merged = match Run::new_from_merge(&self.levels[i].runs, &self.config, i + 2) {
            Ok(r) => r,
            Err(_e) => {
                proof {
                    assert(!spec_compact_ok(
                        old(self).spec_levels()[i as int].runs@,
                        old(self).spec_config(),
                    ));
                }
                return ;
            },
        };
        let ghost merged_g = merged;
        let old_level = self.levels.remove(i);
        self.levels.insert(
            i,
            Level { num_runs: 0, runs: Vec::new() },
        );
        proof {
            assert(self.spec_levels() =~= pre.spec_levels().update(
                i as int,
                self.spec_levels()[i as int],
            ));
            assert(self.spec_levels()[i as int].wf());
        }
        self.add_run_to_level(merged, i + 2);
        proof {
            self.lemma_compact_preserves(pre, i as int, merged_g);
            assert(merged_g@ == spec_merged_runs(old(self).spec_levels()[i as int].runs@));
            assert(self.spec_levels()[i + 1].runs@.last() == merged_g);
            assert(spec_compact_ok(
                old(self).spec_levels()[i as int].runs@,
                old(self).spec_config(),
            ));
        }
    }

    /// One run-manager cycle: flushes the active memtable once its byte
    /// counter has crossed the budget, then compacts every level that
    /// has accumulated at least `t` runs. Durability across flush and
    /// compaction equivalence both hold: no key's answer changes.
    pub fn run_manager_step(&mut self)
        requires
            old(self).wf(),
        ensures
            final(self).wf(),
            forall|k: i32| final(self).spec_lookup(k) == old(self).spec_lookup(k),
            final(self).spec_config() == old(self).spec_config(),
            final(self).spec_shutdown() == old(self).spec_shutdown(),
            (old(self).spec_flush_ok() && (old(self).spec_shutdown() || old(
                self,
            ).spec_active_memory_use() > old(self).spec_config().spec_memory_map_budget()))
                ==> (final(self).spec_active() =~= Map::empty()
                && final(self).spec_active_memory_use() == 0),
            !old(self).spec_flush_ok() ==> (final(self).spec_active() == old(self).spec_active()
                && final(self).spec_active_memory_use() == old(self).spec_active_memory_use()),
            !old(self).spec_shutdown() ==> (forall|j: int|
                0 <= j < old(self).spec_levels().len() && j + 2 <= usize::MAX ==> ((
                #[trigger] final(self).spec_levels()[j].runs@).len() < old(
                    self,
                ).spec_config().spec_t() || !spec_compact_ok(
                    final(self).spec_levels()[j].runs@,
                    old(self).spec_config(),
                ))),
    {
        if self.time_to_shutdown {
            // Winding down: flush what is outstanding and stop.
            let shutdown_flush = self.flush_active();
            match shutdown_flush {
                Ok(()) => {},
                Err(_e) => {},
            }
            return ;
        }
        let active_over = if self.use_primary_map {
            self.time_to_merge_primary_memmap()
        } else {
            self.time_to_merge_secondary_memmap()
        };
        if active_over {
            let flush_result = self.flush_active();
            match flush_result {
                Ok(()) => {},
                Err(_e) => {},
            }
        }
        let ghost flushed = *self;
        let n = self.levels.len();
        let t = self.config.t();
        let mut i: usize = 0;
        while i < n
            invariant
                self.wf(),
                i <= n <= self.spec_levels().len(),
                t == self.spec_config().spec_t(),
                t >= 2,
                forall|k: i32| self.spec_lookup(k) == old(self).spec_lookup(k),
                self.spec_config() == old(self).spec_config(),
                self.spec_shutdown() == old(self).spec_shutdown(),
                self.spec_active() == flushed.spec_active(),
                self.spec_active_memory_use() == flushed.spec_active_memory_use(),
                forall|j: int|
                    0 <= j < i && j + 2 <= usize::MAX ==> ((
                    #[trigger] self.spec_levels()[j].runs@).len() < t || !spec_compact_ok(
                        self.spec_levels()[j].runs@,
                        self.spec_config(),
                    )),
            decreases n - i,
        {
            let ghost before = *self;
            if self.levels[i].runs.len() as u64 >= t {
                self.compact_level(i);
            }
            i = i + 1;
            proof {
                assert forall|j: int|
                    0 <= j < i && j + 2 <= usize::MAX implies ((
                    #[trigger] self.spec_levels()[j].runs@).len() < t || !spec_compact_ok(
                        self.spec_levels()[j].runs@,
                        self.spec_config(),
                    )) by {
                    if j < i - 1 {
                        assert(self.spec_levels()[j] == before.spec_levels()[j]);
                    }
                }
            }
        }
    }

    /// Winds the engine down: raises the shutdown flag and flushes the
    /// outstanding writes, so that everything written is in a completed
    /// run; no key's answer changes.
    pub fn close(&mut self)
        requires
            old(self).wf(),
        ensures
            final(self).wf(),
            forall|k: i32| final(self).spec_lookup(k) == old(self).spec_lookup(k),
            final(self).spec_shutdown(),
            old(self).spec_flush_ok() ==> (final(self).spec_active() =~= Map::empty()
                && final(self).spec_active_memory_use() == 0),
            final(self).spec_config() == old(self).spec_config(),
    {
        let flush_result = self.flush_active();
        match flush_result {
            Ok(()) => {},
            Err(_e) => {},
        }
        self.time_to_shutdown = true;
    }

    /// Asks the engine to wind down: raises the shutdown flag and
    /// changes nothing else.
    pub fn shutdown(&mut self)
        requires
            old(self).wf(),
        ensures
            final(self).wf(),
            final(self).spec_shutdown(),
            forall|k: i32| final(self).spec_lookup(k) == old(self).spec_lookup(k),
            final(self).spec_active() == old(self).spec_active(),
            final(self).spec_levels() == old(self).spec_levels(),
            final(self).spec_active_memory_use() == old(self).spec_active_memory_use(),
            final(self).spec_config() == old(self).spec_config(),
    {
        self.time_to_shutdown = true;
    }

    /// The number of levels currently present.
    pub fn num_levels(&self) -> (r: usize)
        ensures
            r == self.spec_levels().len(),
    {
        self.levels.len()
    }

    /// The number of runs at level index `i`.
    pub fn num_runs_at_level(&self, i: usize) -> (r: usize)
        requires
            i < self.spec_levels().len(),
        ensures
            r == self.spec_levels()[i as int].runs@.len(),
    {
        self.levels[i].runs.len()
    }

    /// The value the engine's view stores for `key` at level index `i`,
    /// bypassing the memtables: for tests that pin where data lives.
    pub fn get_from_level_index(&self, i: usize, key: &i32) -> (r: Option<Option<Vec<u8>>>)
        requires
            self.wf(),
            i < self.spec_levels().len(),
        ensures
            r.deep_view() == runs_lookup(self.spec_levels()[i as int].runs@, *key),
    {
        self.levels[i].get_from_level(key)
    }
}

/// One write against the store: a put or a delete.
pub enum StoreOp {
    Put(i32, Seq<u8>),
    Delete(i32),
}

/// The key a write is about.
pub open spec fn op_key(op: StoreOp) -> i32 {
    match op {
        StoreOp::Put(k, v) => k,
        StoreOp::Delete(k) => k,
    }
}

/// The effect of one write on the abstract store: a put binds the key
/// to its value, a delete binds it to the tombstone.
pub open spec fn apply_op(m: Map<int, Option<Seq<u8>>>, op: StoreOp) -> Map<
    int,
    Option<Seq<u8>>,
> {
    match op {
        StoreOp::Put(k, v) => m.insert(k as int, Some(v)),
        StoreOp::Delete(k) => m.insert(k as int, None),
    }
}

/// A sequence of writes applied in order, oldest first.
pub open spec fn apply_ops(m: Map<int, Option<Seq<u8>>>, ops: Seq<StoreOp>) -> Map<
    int,
    Option<Seq<u8>>,
>
    decreases ops.len(),
{
    if ops.len() == 0 {
        m
    } else {
        apply_op(apply_ops(m, ops.drop_last()), ops.last())
    }
}

/// The most recent write about a key, if any.
pub open spec fn last_op_for(ops: Seq<StoreOp>, key: i32) -> Option<StoreOp>
    decreases ops.len(),
{
    if ops.len() == 0 {
        None
    } else if op_key(ops.last()) == key {
        Some(ops.last())
    } else {
        last_op_for(ops.drop_last(), key)
    }
}

/// Point read-after-write: after any sequence of puts and deletes, a
/// key reads as the value of its most recent put, as absent when its
/// most recent write was a delete, and as before the sequence when no
/// write touched it. The engine's `put`, `delete` and `get` contracts
/// realize `apply_op` and `mem_lookup` on its view, one write at a
/// time.
pub proof fn lemma_read_after_write(m: Map<int, Option<Seq<u8>>>, ops: Seq<StoreOp>, key: i32)
    ensures
        mem_lookup(apply_ops(m, ops), key) == match last_op_for(ops, key) {
            Some(StoreOp::Put(k, v)) => Some(Some(v)),
            Some(StoreOp::Delete(k)) => Some(None::<Seq<u8>>),
            None => mem_lookup(m, key),
        },
    decreases ops.len(),
{
    if ops.len() > 0 {
        lemma_read_after_write(m, ops.drop_last(), key);
    }
}

/// Every run of a level list in order, oldest level first and oldest
/// run first within a level, each tagged with its 1-based level
/// number.
pub open spec fn spec_tagged_runs(levels: Seq<Level>, first_level: int) -> Seq<(int, Run)>
    decreases levels.len(),
{
    if levels.len() == 0 {
        Seq::empty()
    } else {
        Seq::new(levels.first().runs@.len(), |j: int| (first_level, levels.first().runs@[j]))
            + spec_tagged_runs(levels.drop_first(), first_level + 1)
    }
}

proof fn lemma_tagged_runs_take(levels: Seq<Level>, first_level: int, i: int)
    requires
        0 <= i < levels.len(),
    ensures
        spec_tagged_runs(levels.take(i + 1), first_level) =~= spec_tagged_runs(
            levels.take(i),
            first_level,
        ) + Seq::new(levels[i].runs@.len(), |j: int| (first_level + i, levels[i].runs@[j])),
    decreases i,
{
    if i == 0 {
        assert(levels.take(1).first() == levels[0]);
        assert(levels.take(1).drop_first() =~= Seq::<Level>::empty());
        assert(levels.take(0) =~= Seq::<Level>::empty());
        assert(spec_tagged_runs(Seq::<Level>::empty(), first_level + 1) =~= Seq::<(
            int,
            Run,
        )>::empty());
        assert(spec_tagged_runs(levels.take(1), first_level) =~= Seq::new(
            levels[0].runs@.len(),
            |j: int| (first_level, levels[0].runs@[j]),
        ));
    } else {
        assert(levels.take(i + 1).first() == levels[0]);
        assert(levels.take(i).first() == levels[0]);
        assert(levels.take(i + 1).drop_first() =~= levels.drop_first().take(i));
        assert(levels.take(i).drop_first() =~= levels.drop_first().take(i - 1));
        lemma_tagged_runs_take(levels.drop_first(), first_level + 1, i - 1);
        assert(levels.drop_first()[i - 1] == levels[i]);
    }
}

impl Lsm {
    /// The on-disk image of every run, tagged with its 1-based level,
    /// oldest first within each level: what an integrator writes out as
    /// the run files of the store's directory. The result lists exactly
    /// `spec_tagged_runs` of the levels, each run as its file image.
    pub fn run_file_images(&self) -> (r: Vec<(usize, Vec<u8>)>)
        requires
            self.wf(),
        ensures
            r@.len() == spec_tagged_runs(self.spec_levels(), 1).len(),
            forall|j: int|
                0 <= j < r@.len() ==> (#[trigger] r@[j]).0 == spec_tagged_runs(
                    self.spec_levels(),
                    1,
                )[j].0 && r@[j].1@ == spec_tagged_runs(
                    self.spec_levels(),
                    1,
                )[j].1.spec_file_image(),
    {
        let mut out: Vec<(usize, Vec<u8>)> = Vec::new();
        let mut i: usize = 0;
        proof {
            assert(self.spec_levels().take(0) =~= Seq::<Level>::empty());
            assert(spec_tagged_runs(Seq::<Level>::empty(), 1) =~= Seq::<(int, Run)>::empty());
        }
        while i < self.levels.len()
            invariant
                self.wf(),
                i <= self.spec_levels().len(),
                out@.len() == spec_tagged_runs(self.spec_levels().take(i as int), 1).len(),
                forall|j: int|
                    0 <= j < out@.len() ==> (#[trigger] out@[j]).0 == spec_tagged_runs(
                        self.spec_levels().take(i as int),
                        1,
                    )[j].0 && out@[j].1@ == spec_tagged_runs(
                        self.spec_levels().take(i as int),
                        1,
                    )[j].1.spec_file_image(),
            decreases self.spec_levels().len() - i,
        {
            let ghost prior = spec_tagged_runs(self.spec_levels().take(i as int), 1);
            let level = &self.levels[i];
            let mut j: usize = 0;
            while j < level.runs.len()
                invariant
                    self.wf(),
                    i < self.spec_levels().len(),
                    level == &self.spec_levels()[i as int],
                    j <= level.runs@.len(),
                    prior == spec_tagged_runs(self.spec_levels().take(i as int), 1),
                    out@.len() == prior.len() + j,
                    forall|jj: int|
                        0 <= jj < prior.len() ==> (#[trigger] out@[jj]).0 == prior[jj].0
                            && out@[jj].1@ == prior[jj].1.spec_file_image(),
                    forall|jj: int|
                        0 <= jj < j ==> (#[trigger] out@[prior.len() + jj]).0 == 1 + i
                            && out@[prior.len() + jj].1@ == self.spec_levels()[
                        i as int].runs@[jj].spec_file_image(),
                decreases level.runs@.len() - j,
            {
                let image = level.runs[j].file_image();
                proof {
                    assert(i < self.levels.len());
                }
                out.push((i + 1, image));
                j = j + 1;
            }
            i = i + 1;
            proof {
                lemma_tagged_runs_take(self.spec_levels(), 1, i - 1);
                let li = spec_tagged_runs(self.spec_levels().take(i as int), 1);
                let lvl_runs = self.spec_levels()[i - 1].runs@;
                assert(li =~= prior + Seq::new(
                    lvl_runs.len(),
                    |jj: int| (1 + (i - 1), lvl_runs[jj]),
                ));
                assert(out@.len() == li.len());
                assert forall|j: int|
                    0 <= j < out@.len() implies (#[trigger] out@[j]).0 == li[j].0 && out@[j].1@
                    == li[j].1.spec_file_image() by {
                    if j < prior.len() {
                        assert(li[j] == prior[j]);
                    } else {
                        assert(li[j] == (1 + (i - 1), lvl_runs[j - prior.len()]));
                        assert(out@[prior.len() + (j - prior.len())].0 == 1 + (i - 1));
                        assert(out@[prior.len() + (j - prior.len())].1@ == lvl_runs[j
                            - prior.len()].spec_file_image());
                    }
                }
            }
        }
        proof {
            assert(self.spec_levels().take(self.spec_levels().len() as int)
                =~= self.spec_levels());
        }
        out
    }
}


} // verus!
