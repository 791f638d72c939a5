//! Immutable sorted on-disk runs.
//!
//! A run is an ordered sequence of fixed-size blocks, each holding a
//! consecutive range of items encoded together, DEFLATE-compressed
//! independently, and padded to the block size; beside the blocks live a
//! Bloom filter over all keys, one fence pointer per block, and counts.
//! A run is built once — from a memtable or by merging older runs — and
//! never changes afterwards.

use vstd::prelude::*;

verus! {

use crate::bloom_filter::BloomFilter;
use crate::codec::{
    checked_encoded_len, decode_items, encode_item_into, item_size_ok, spec_encode_item,
    spec_encode_items, wf_items, Item, ItemModel,
};
use crate::compress::{deflate_compress, deflate_decompress, deflate_of};
use vstd::bytes::{spec_u32_to_le_bytes, spec_u64_to_le_bytes, u32_to_le_bytes, u64_to_le_bytes};
use crate::fence_pointer::FencePointer;
use crate::memtable::{
    lemma_entries_unique, skip_map_items, skip_map_len, skip_map_model, spec_entries,
    spec_entries_match,
};
use crate::merge::{
    items_has_key, items_lookup, lemma_key_present_implies_lookup,
    lemma_lookup_implies_key_present, lemma_merge_lookup, lemma_merge_sorted, merge_items,
    sorted_strict, spec_merge,
};
use crate::rust_store::Config;

/// Failures while building or reading a run.
#[derive(Debug)]
pub enum RunError {
    IoError,
    DeserializeError,
    RunCreationError,
    NotImplemented,
}

/// A compressed block padded to the fixed block size with filler bytes.
pub open spec fn spec_padded_block(comp: Seq<u8>, block_size: int) -> Seq<u8> {
    comp + Seq::new((block_size - comp.len()) as nat, |i: int| 4u8)
}


/// Whether appending the item at `j` to a block already holding items
/// `start .. j` would overflow the block: its uncompressed encoded
/// size, plus the safety margin for encoder framing, no longer fits.
pub open spec fn spec_block_full(items: Seq<ItemModel>, start: int, j: int, bs: int) -> bool {
    spec_encode_items(items.subrange(start, j)).len() + spec_encode_item(items[j]).len() + 20 > bs
}

/// Where the block that starts at `start` ends under the greedy
/// policy, searching from position `j`: the first position whose item
/// would overflow the block, or the end of the items.
#[verifier::opaque]
pub open spec fn spec_block_end_from(items: Seq<ItemModel>, start: int, j: int, bs: int) -> int
    decreases items.len() - j,
{
    if j >= items.len() {
        items.len() as int
    } else if spec_block_full(items, start, j, bs) {
        j
    } else {
        spec_block_end_from(items, start, j + 1, bs)
    }
}

/// Where the greedy block that starts at `start` ends. The first item
/// of a block is always taken.
pub open spec fn spec_block_end(items: Seq<ItemModel>, start: int, bs: int) -> int {
    spec_block_end_from(items, start, start + 1, bs)
}

proof fn lemma_block_end_from_range(items: Seq<ItemModel>, start: int, j: int, bs: int)
    requires
        j <= items.len(),
    ensures
        j <= spec_block_end_from(items, start, j, bs) <= items.len(),
    decreases items.len() - j,
{
    reveal(spec_block_end_from);
    if j < items.len() && !spec_block_full(items, start, j, bs) {
        lemma_block_end_from_range(items, start, j + 1, bs);
    }
}

/// Pins the greedy block end: when no position before `e` overflows
/// and `e` itself does (or is the end), the search from `j` stops at
/// `e`.
proof fn lemma_block_end_pinpoint(items: Seq<ItemModel>, start: int, j: int, e: int, bs: int)
    requires
        j <= e <= items.len(),
        forall|j2: int| j <= j2 < e ==> !spec_block_full(items, start, j2, bs),
        e < items.len() ==> spec_block_full(items, start, e, bs),
    ensures
        spec_block_end_from(items, start, j, bs) == e,
    decreases e - j,
{
    reveal(spec_block_end_from);
    if j < e {
        lemma_block_end_pinpoint(items, start, j + 1, e, bs);
    }
}

/// Whether every block of the greedy decomposition of the items,
/// starting at `start`, compresses into the block size. Run creation
/// succeeds exactly when this holds of the whole item sequence.
#[verifier::opaque]
pub open spec fn spec_blocks_fit(items: Seq<ItemModel>, start: int, bs: int) -> bool
    decreases items.len() - start,
    via spec_blocks_fit_decreases
{
    if start >= items.len() {
        true
    } else {
        &&& deflate_of(
            spec_encode_items(items.subrange(start, spec_block_end(items, start, bs))),
        ).len() <= bs
        &&& spec_blocks_fit(items, spec_block_end(items, start, bs), bs)
    }
}

#[via_fn]
proof fn spec_blocks_fit_decreases(items: Seq<ItemModel>, start: int, bs: int) {
    if start < items.len() {
        lemma_block_end_from_range(items, start, start + 1, bs);
    }
}

/// An immutable sorted run: block data plus in-memory metadata. The
/// mathematical view of a run is its item sequence, in key order.
pub struct Run {
    pub num_blocks: usize,
    pub level: usize,
    bloom_filter: BloomFilter,
    fence_pointers: Vec<FencePointer<i32>>,
    blocks: Vec<Vec<u8>>,
    block_size: u64,
    size_in_bytes: usize,
    num_elements: usize,
    items: Ghost<Seq<ItemModel>>,
    block_items: Ghost<Seq<Seq<ItemModel>>>,
}

impl View for Run {
    type V = Seq<ItemModel>;

    closed spec fn view(&self) -> Seq<ItemModel> {
        self.items@
    }
}

impl Run {
    /// The item ranges held by each block, in order.
    pub closed spec fn spec_block_items(&self) -> Seq<Seq<ItemModel>> {
        self.block_items@
    }

    pub closed spec fn spec_num_blocks(&self) -> usize {
        self.num_blocks
    }

    pub closed spec fn spec_level(&self) -> usize {
        self.level
    }

    pub closed spec fn spec_fence_pointers(&self) -> Seq<FencePointer<i32>> {
        self.fence_pointers@
    }

    pub closed spec fn spec_block_size(&self) -> u64 {
        self.block_size
    }

    pub closed spec fn spec_blocks(&self) -> Seq<Seq<u8>> {
        self.blocks.deep_view()
    }

    pub closed spec fn spec_filter(&self) -> BloomFilter {
        self.bloom_filter
    }

    pub closed spec fn spec_num_elements(&self) -> usize {
        self.num_elements
    }

    pub closed spec fn spec_size_in_bytes(&self) -> usize {
        self.size_in_bytes
    }

    /// Well-formedness of a sealed run: the blocks, fence pointers and
    /// item ranges line up; every block is the padded compression of its
    /// items' encoding; keys strictly increase across the whole run;
    /// fence pointers carry each block's first and last key, and ranges
    /// of distinct blocks never overlap; every key passes the filter.
    pub open spec fn wf(&self) -> bool {
        &&& self.spec_num_blocks() >= 1
        &&& self.spec_block_items().len() == self.spec_num_blocks()
        &&& self.spec_blocks().len() == self.spec_num_blocks()
        &&& self.spec_fence_pointers().len() == self.spec_num_blocks()
        &&& self.spec_block_size() >= 1
        &&& self@ == self.spec_block_items().flatten()
        &&& wf_items(self@)
        &&& sorted_strict(self@)
        &&& (forall|j: int|
            0 <= j < self.spec_num_blocks() ==> (#[trigger] self.spec_block_items()[j]).len() >= 1)
        &&& (forall|j: int| 0 <= j < self.spec_num_blocks() ==> wf_items(#[trigger] self.spec_block_items()[j]))
        &&& (forall|j: int|
            0 <= j < self.spec_num_blocks() ==> sorted_strict(#[trigger] self.spec_block_items()[j]))
        &&& (forall|j: int|
            0 <= j < self.spec_num_blocks() ==> deflate_of(
                spec_encode_items(#[trigger] self.spec_block_items()[j]),
            ).len() <= self.spec_block_size())
        &&& (forall|j: int|
            0 <= j < self.spec_num_blocks() ==> #[trigger] self.spec_blocks()[j] == spec_padded_block(
                deflate_of(spec_encode_items(self.spec_block_items()[j])),
                self.spec_block_size() as int,
            ))
        &&& (forall|j: int|
            0 <= j < self.spec_num_blocks() ==> (#[trigger] self.spec_fence_pointers()[j]).low_spec()
                == self.spec_block_items()[j].first().key)
        &&& (forall|j: int|
            0 <= j < self.spec_num_blocks() ==> (#[trigger] self.spec_fence_pointers()[j]).high_spec()
                == self.spec_block_items()[j].last().key)
        &&& (forall|j1: int, j2: int|
            0 <= j1 < j2 < self.spec_num_blocks() ==> (#[trigger] self.spec_fence_pointers()[j1]).high_spec()
                < (#[trigger] self.spec_fence_pointers()[j2]).low_spec())
        &&& (forall|j: int|
            0 <= j < self.spec_num_blocks() ==> (#[trigger] self.spec_fence_pointers()[j]).low_spec()
                <= self.spec_fence_pointers()[j].high_spec())
        &&& self.spec_filter().inv()
        &&& (forall|i: int|
            0 <= i < self@.len() ==> self.spec_filter().has_key((#[trigger] self@[i]).key))
    }

    /// Disk usage in bytes.
    pub fn size_in_bytes(&self) -> (r: usize)
        ensures
            r == self.spec_size_in_bytes(),
    {
        self.size_in_bytes
    }

    /// In-memory metadata footprint: the filter's bits as bytes plus
    /// one fence pointer per block, capped at the representable size.
    pub fn get_memory_use_in_bytes(&self) -> (r: usize)
        requires
            self.wf(),
        ensures
            r == if (self.spec_filter().num_bits() + 7) / 8 + self.spec_num_blocks() * 8
                <= usize::MAX {
                (self.spec_filter().num_bits() + 7) / 8 + self.spec_num_blocks() * 8
            } else {
                usize::MAX as int
            },
    {
        let filter_bytes = self.bloom_filter.size_in_bytes();
        let fence_bytes = self.fence_pointers[0].size_in_bytes();
        let wide: u128 = (filter_bytes as u128) + (self.num_blocks as u128) * (fence_bytes
            as u128);
        if wide > usize::MAX as u128 {
            usize::MAX
        } else {
            wide as usize
        }
    }
}

/// Compresses a finished block and pads it to the block size; fails when
/// the compressed form does not fit the block.
fn seal_block(cur: &Vec<u8>, block_size: usize) -> (r: Result<Vec<u8>, RunError>)
    ensures
        r matches Ok(b) ==> deflate_of(cur@).len() <= block_size && b@ == spec_padded_block(
            deflate_of(cur@),
            block_size as int,
        ),
        r matches Err(e) ==> e is RunCreationError && deflate_of(cur@).len() > block_size,
{
    let mut comp = deflate_compress(cur);
    if comp.len() > block_size {
        return Err(RunError::RunCreationError);
    }
    let ghost c = comp@;
    while comp.len() < block_size
        invariant
            c == deflate_of(cur@),
            c.len() <= comp@.len() <= block_size,
            comp@ == c + Seq::new((comp@.len() - c.len()) as nat, |i: int| 4u8),
        decreases block_size - comp@.len(),
    {
        comp.push(4u8);
        proof {
            assert(comp@ =~= c + Seq::new((comp@.len() - c.len()) as nat, |i: int| 4u8));
        }
    }
    proof {
        assert(comp@ =~= spec_padded_block(deflate_of(cur@), block_size as int));
    }
    Ok(comp)
}

impl Run {
    /// Builds a run at `level` from a sorted, non-empty item sequence,
    /// walking the items in order and starting a fresh block whenever
    /// the next item would overflow the current one (by uncompressed
    /// size plus a safety margin for encoder framing).
    ///
    /// Fails only when a value is too large to encode or a compressed
    /// block exceeds the block size.
    #[verifier::rlimit(100)]
    pub fn run_from_items(
        items: &Vec<Item>,
        config: &Config,
        level: usize,
        num_elements: usize,
    ) -> (r: Result<Run, RunError>)
        requires
            config.wf(),
            sorted_strict(items.deep_view()),
            items@.len() >= 1,
        ensures
            r matches Ok(run) ==> run.wf() && run@ == items.deep_view() && run.spec_level()
                == level && run.spec_block_size() == config.spec_block_size()
                && run.spec_num_elements() == num_elements,
            r matches Err(e) ==> e is RunCreationError,
            r is Ok <==> (config.spec_block_size() <= usize::MAX && (forall|i: int|
                0 <= i < items.deep_view().len() ==> item_size_ok(
                    #[trigger] items.deep_view()[i],
                )) && spec_blocks_fit(
                items.deep_view(),
                0,
                config.spec_block_size() as int,
            )),
    {
        let ghost a = items.deep_view();
        proof {
            assert(a.len() == items@.len());
            assert forall|i: int| 0 <= i < a.len() implies crate::codec::wf_item(
                #[trigger] a[i],
            ) by {
                crate::codec::lemma_item_wf(items@[i]);
                assert(a[i] == items@[i].deep_view());
            }
        }
        let bs_u64 = config.block_size();
        if bs_u64 > usize::MAX as u64 {
            return Err(RunError::RunCreationError);
        }
        let bs: usize = bs_u64 as usize;
        let sizing = if num_elements >= 1 {
            num_elements
        } else {
            1
        };
        let mut filter = BloomFilter::new_with_rate(100000, sizing);
        let mut fences: Vec<FencePointer<i32>> = Vec::new();
        let mut blocks: Vec<Vec<u8>> = Vec::new();
        let ghost mut done: Seq<Seq<ItemModel>> = Seq::empty();
        let mut cur: Vec<u8> = Vec::new();
        let ghost mut base: int = 0;
        let mut min_val: i32 = 0;
        let mut max_val: i32 = 0;
        let mut idx: usize = 0;
        proof {
            assert(done.flatten() =~= a.take(0));
            assert(cur@ =~= spec_encode_items(a.subrange(0, 0)));
        }
        while idx < items.len()
            invariant
                a == items.deep_view(),
                a.len() == items@.len(),
                sorted_strict(a),
                wf_items(a),
                1 <= bs <= u64::MAX,
                bs == config.spec_block_size(),
                0 <= base <= idx <= a.len(),
                idx >= 1 ==> base < idx,
                idx == 0 ==> base == 0 && done.len() == 0,
                done.flatten() == a.take(base),
                cur@ == spec_encode_items(a.subrange(base, idx as int)),
                base < idx ==> min_val == a[base].key && max_val == a[idx - 1].key,
                blocks@.len() == done.len(),
                fences@.len() == done.len(),
                forall|j: int| 0 <= j < done.len() ==> (#[trigger] done[j]).len() >= 1,
                forall|j: int| 0 <= j < done.len() ==> wf_items(#[trigger] done[j]),
                forall|j: int| 0 <= j < done.len() ==> sorted_strict(#[trigger] done[j]),
                forall|j: int|
                    0 <= j < done.len() ==> deflate_of(
                        spec_encode_items(#[trigger] done[j]),
                    ).len() <= bs,
                forall|j: int|
                    0 <= j < done.len() ==> (#[trigger] blocks.deep_view()[j])
                        == spec_padded_block(
                        deflate_of(spec_encode_items(done[j])),
                        bs as int,
                    ),
                forall|j: int|
                    0 <= j < done.len() ==> (#[trigger] fences@[j]).low_spec() == done[
                        j].first().key,
                forall|j: int|
                    0 <= j < done.len() ==> (#[trigger] fences@[j]).high_spec() == done[
                        j].last().key,
                forall|j: int|
                    0 <= j < done.len() ==> base < idx && (#[trigger] fences@[j]).high_spec()
                        < a[base].key,
                forall|j1: int, j2: int|
                    0 <= j1 < j2 < done.len() ==> (#[trigger] fences@[j1]).high_spec() < (
                    #[trigger] fences@[j2]).low_spec(),
                filter.inv(),
                forall|i: int| 0 <= i < idx ==> filter.has_key((#[trigger] a[i]).key),
                forall|i: int| 0 <= i < idx ==> item_size_ok(#[trigger] a[i]),
                forall|j: int| base < j < idx ==> !spec_block_full(a, base, j, bs as int),
                spec_blocks_fit(a, 0, bs as int) <==> spec_blocks_fit(a, base, bs as int),
            decreases a.len() - idx,
        {
            let it = &items[idx];
            proof {
                assert(it@ == a[idx as int]);
            }
            let enc_len = match checked_encoded_len(it) {
                Some(l) => l,
                None => {
                    proof {
                        assert(!item_size_ok(a[idx as int]));
                    }
                    return Err(RunError::RunCreationError);
                },
            };
            let needs_seal = cur.len() >= 1 && cur.len() as u128 + enc_len as u128 + 20u128
                > bs as u128;
            if needs_seal {
                proof {
                    if base == idx {
                        assert(a.subrange(base, idx as int) =~= Seq::<ItemModel>::empty());
                        assert(cur@.len() == 0);
                        assert(false);
                    }
                    assert(spec_block_full(a, base, idx as int, bs as int));
                    lemma_block_end_pinpoint(a, base, base + 1, idx as int, bs as int);
                    assert(spec_block_end(a, base, bs as int) == idx);
                }
                let sealed = match seal_block(&cur, bs) {
                    Ok(b) => b,
                    Err(_e) => {
                        proof {
                            assert(deflate_of(
                                spec_encode_items(a.subrange(base, idx as int)),
                            ).len() > bs);
                            assert(!spec_blocks_fit(a, base, bs as int)) by {
                                reveal(spec_blocks_fit);
                            }
                            assert(!spec_blocks_fit(a, 0, bs as int));
                        }
                        return Err(RunError::RunCreationError);
                    },
                };
                let ghost seg = a.subrange(base, idx as int);
                let ghost prev_blocks = blocks.deep_view();
                let ghost sb = sealed@;
                blocks.push(sealed);
                fences.push(FencePointer::new(min_val, max_val));
                proof {
                    assert(blocks.deep_view() =~~= prev_blocks.push(sb));
                    done.lemma_flatten_push(seg);
                    done = done.push(seg);
                    assert(done.flatten() =~= a.take(idx as int));
                    assert(wf_items(seg));
                    assert(sorted_strict(seg));
                    assert(seg.first() == a[base]);
                    assert(seg.last() == a[idx - 1]);
                    assert(cur@ == spec_encode_items(seg));
                    assert forall|j: int| 0 <= j < done.len() implies (
                    #[trigger] blocks.deep_view()[j]) == spec_padded_block(
                        deflate_of(spec_encode_items(done[j])),
                        bs as int,
                    ) by {
                        if j < done.len() - 1 {
                            assert(blocks.deep_view()[j] == prev_blocks[j]);
                            assert(done[j] == done.drop_last()[j]);
                        } else {
                            assert(done[j] == seg);
                            assert(blocks.deep_view()[j] == sb);
                        }
                    }
                }
                cur = Vec::new();
                proof {
                    assert(spec_blocks_fit(a, base, bs as int) <==> spec_blocks_fit(
                        a,
                        idx as int,
                        bs as int,
                    )) by {
                        reveal(spec_blocks_fit);
                    }
                    base = idx as int;
                    assert(cur@ =~= spec_encode_items(a.subrange(base, base)));
                }
            }
            let ghost base_now = base;
            let ghost prev_cur_items = a.subrange(base, idx as int);
            if cur.len() == 0 {
                min_val = it.key_ref();
            }
            max_val = it.key_ref();
            encode_item_into(&mut cur, it);
            proof {
                crate::codec::lemma_encode_items_push(prev_cur_items, a[idx as int]);
                assert(a.subrange(base, idx + 1) =~= prev_cur_items.push(a[idx as int]));
            }
            filter.insert(&it.key_ref());
            idx = idx + 1;
            proof {
                assert(min_val == a[base].key);
                assert(max_val == a[idx - 1].key);
                assert forall|j: int| base < j < idx implies !spec_block_full(
                    a,
                    base,
                    j,
                    bs as int,
                ) by {
                    if j == idx - 1 {
                        assert(base_now == base);
                        assert(!needs_seal);
                        crate::codec::lemma_encode_items_min_len(prev_cur_items);
                        assert(prev_cur_items.len() >= 1);
                    }
                }
            }
        }
        proof {
            if base == a.len() {
                assert(a.subrange(base, a.len() as int) =~= Seq::<ItemModel>::empty());
                assert(cur@.len() == 0);
                crate::codec::lemma_encode_items_min_len(a.subrange(base, idx as int));
                assert(false);
            }
            lemma_block_end_pinpoint(a, base, base + 1, a.len() as int, bs as int);
            assert(spec_block_end(a, base, bs as int) == a.len());
        }
        let sealed = match seal_block(&cur, bs) {
            Ok(b) => b,
            Err(_e) => {
                proof {
                    assert(deflate_of(
                        spec_encode_items(a.subrange(base, a.len() as int)),
                    ).len() > bs);
                    assert(!spec_blocks_fit(a, base, bs as int)) by {
                        reveal(spec_blocks_fit);
                    }
                    assert(!spec_blocks_fit(a, 0, bs as int));
                }
                return Err(RunError::RunCreationError);
            },
        };
        let ghost seg = a.subrange(base, a.len() as int);
        let ghost prev_blocks = blocks.deep_view();
        let ghost sb = sealed@;
        blocks.push(sealed);
        fences.push(FencePointer::new(min_val, max_val));
        proof {
            assert(blocks.deep_view() =~~= prev_blocks.push(sb));
            done.lemma_flatten_push(seg);
            done = done.push(seg);
            assert(done.flatten() =~= a);
            assert(wf_items(seg));
            assert(sorted_strict(seg));
            assert(seg.first() == a[base]);
            assert(seg.last() == a[a.len() - 1]);
            assert(cur@ == spec_encode_items(seg));
            assert forall|j: int| 0 <= j < done.len() implies (#[trigger] blocks.deep_view()[j])
                == spec_padded_block(deflate_of(spec_encode_items(done[j])), bs as int) by {
                if j < done.len() - 1 {
                    assert(blocks.deep_view()[j] == prev_blocks[j]);
                    assert(done[j] == done.drop_last()[j]);
                } else {
                    assert(done[j] == seg);
                    assert(blocks.deep_view()[j] == sb);
                }
            }
        }
        let num_blocks = blocks.len();
        let filter_bytes = filter.size_in_bytes();
        proof {
            assert((num_blocks as int) * (bs as int) <= 0xffffffffffffffff
                * 0xffffffffffffffff) by (nonlinear_arith)
                requires
                    0 <= num_blocks as int <= 0xffffffffffffffff,
                    0 <= bs as int <= 0xffffffffffffffff,
            ;
        }
        let t1: u128 = (num_blocks as u128) * (bs as u128);
        let t2: u128 = (num_blocks as u128) * 8u128 + (filter_bytes as u128);
        let run_bytes_wide: u128 = if t1 > u128::MAX - t2 {
            u128::MAX
        } else {
            t1 + t2
        };
        let run_bytes: usize = if run_bytes_wide > usize::MAX as u128 {
            usize::MAX
        } else {
            run_bytes_wide as usize
        };
        let run = Run {
            num_blocks,
            level,
            bloom_filter: filter,
            fence_pointers: fences,
            blocks,
            block_size: bs_u64,
            size_in_bytes: run_bytes,
            num_elements,
            items: Ghost(a),
            block_items: Ghost(done),
        };
        proof {
            assert(run.wf());
            assert(spec_blocks_fit(a, a.len() as int, bs as int)) by {
                reveal(spec_blocks_fit);
            }
            assert(spec_blocks_fit(a, base, bs as int)) by {
                reveal(spec_blocks_fit);
            }
            assert(spec_blocks_fit(a, 0, bs as int));
        }
        Ok(run)
    }
}

/// First-hit search over block item ranges, in block order.
pub open spec fn blocks_lookup(segs: Seq<Seq<ItemModel>>, key: i32) -> Option<Option<Seq<u8>>>
    decreases segs.len(),
{
    if segs.len() == 0 {
        None
    } else if items_has_key(segs.first(), key) {
        items_lookup(segs.first(), key)
    } else {
        blocks_lookup(segs.drop_first(), key)
    }
}

/// Looking up a key in flattened block ranges is the first-hit search
/// over the ranges.
pub proof fn lemma_flatten_lookup(segs: Seq<Seq<ItemModel>>, key: i32)
    ensures
        items_lookup(segs.flatten(), key) == blocks_lookup(segs, key),
    decreases segs.len(),
{
    if segs.len() > 0 {
        crate::merge::lemma_concat_lookup(segs.first(), segs.drop_first().flatten(), key);
        lemma_flatten_lookup(segs.drop_first(), key);
    }
}

/// When only block `j` can hold the key, the first-hit search answers
/// from block `j`.
proof fn lemma_blocks_lookup_pinpoint(segs: Seq<Seq<ItemModel>>, j: int, key: i32)
    requires
        0 <= j < segs.len(),
        forall|j2: int|
            0 <= j2 < segs.len() && j2 != j ==> !items_has_key(#[trigger] segs[j2], key),
    ensures
        blocks_lookup(segs, key) == items_lookup(segs[j], key),
    decreases j,
{
    if j == 0 {
        if !items_has_key(segs.first(), key) {
            lemma_blocks_lookup_none(segs.drop_first(), key);
        }
    } else {
        assert(!items_has_key(segs[0], key));
        lemma_blocks_lookup_pinpoint(segs.drop_first(), j - 1, key);
    }
}

/// When no block holds the key, the first-hit search answers `None`.
proof fn lemma_blocks_lookup_none(segs: Seq<Seq<ItemModel>>, key: i32)
    requires
        forall|j: int| 0 <= j < segs.len() ==> !items_has_key(#[trigger] segs[j], key),
    ensures
        blocks_lookup(segs, key) is None,
    decreases segs.len(),
{
    if segs.len() > 0 {
        lemma_blocks_lookup_none(segs.drop_first(), key);
    }
}

/// When the first-hit search finds the key, some block holds it.
proof fn lemma_blocks_lookup_witness(segs: Seq<Seq<ItemModel>>, key: i32)
    requires
        blocks_lookup(segs, key) is Some,
    ensures
        exists|j: int| 0 <= j < segs.len() && items_has_key(#[trigger] segs[j], key),
    decreases segs.len(),
{
    if segs.len() > 0 {
        if items_has_key(segs.first(), key) {
            assert(segs[0] == segs.first());
        } else {
            lemma_blocks_lookup_witness(segs.drop_first(), key);
            let j = choose|j: int|
                0 <= j < segs.drop_first().len() && items_has_key(
                    #[trigger] segs.drop_first()[j],
                    key,
                );
            assert(segs[j + 1] == segs.drop_first()[j]);
        }
    }
}

impl Run {
    /// A key absent from every fence range is absent from the run.
    proof fn lemma_key_outside_all_fences(&self, key: i32)
        requires
            self.wf(),
            forall|j: int|
                0 <= j < self.spec_num_blocks() ==> !(#[trigger] self.spec_fence_pointers()[j]).contains_key(
                    key as int,
                ),
        ensures
            items_lookup(self@, key) is None,
    {
        assert forall|j: int| 0 <= j < self.spec_num_blocks() implies !items_has_key(
            #[trigger] self.spec_block_items()[j],
            key,
        ) by {
            let seg = self.spec_block_items()[j];
            assert(!self.spec_fence_pointers()[j].contains_key(key as int));
            crate::merge::lemma_sorted_out_of_range(seg, key);
        }
        lemma_blocks_lookup_none(self.spec_block_items(), key);
        lemma_flatten_lookup(self.spec_block_items(), key);
    }

    /// Only block `j` can hold a key inside fence `j`'s range.
    proof fn lemma_key_only_in_block(&self, j: int, key: i32)
        requires
            self.wf(),
            0 <= j < self.spec_num_blocks(),
            self.spec_fence_pointers()[j].contains_key(key as int),
        ensures
            items_lookup(self@, key) == items_lookup(self.spec_block_items()[j], key),
    {
        assert forall|j2: int|
            0 <= j2 < self.spec_num_blocks() && j2 != j implies !items_has_key(
            #[trigger] self.spec_block_items()[j2],
            key,
        ) by {
            let seg = self.spec_block_items()[j2];
            if j2 < j {
                assert(self.spec_fence_pointers()[j2].high_spec() < self.spec_fence_pointers()[
                    j].low_spec());
            } else {
                assert(self.spec_fence_pointers()[j].high_spec() < self.spec_fence_pointers()[
                    j2].low_spec());
            }
            crate::merge::lemma_sorted_out_of_range(seg, key);
        }
        lemma_blocks_lookup_pinpoint(self.spec_block_items(), j, key);
        lemma_flatten_lookup(self.spec_block_items(), key);
    }

    /// Finds the unique block whose fence range contains the key, by
    /// binary search over the fence pointers.
    pub fn get_page_index(&self, key: &i32) -> (r: Option<u64>)
        requires
            self.wf(),
        ensures
            r matches Some(j) ==> j < self.spec_num_blocks()
                && self.spec_fence_pointers()[j as int].contains_key(*key as int),
            r is None ==> forall|j: int|
                0 <= j < self.spec_num_blocks() ==> !(#[trigger] self.spec_fence_pointers()[j]).contains_key(
                    *key as int,
                ),
    {
        let mut lo: usize = 0;
        let mut hi: usize = self.fence_pointers.len();
        while lo < hi
            invariant
                self.wf(),
                lo <= hi <= self.spec_num_blocks(),
                self.spec_fence_pointers().len() == self.spec_num_blocks(),
                forall|j: int|
                    0 <= j < lo ==> (#[trigger] self.spec_fence_pointers()[j]).high_spec() < *key,
                forall|j: int|
                    hi <= j < self.spec_num_blocks() ==> *key < (
                    #[trigger] self.spec_fence_pointers()[j]).low_spec(),
            decreases hi - lo,
        {
            let mid = lo + (hi - lo) / 2;
            let fp = &self.fence_pointers[mid];
            if fp.high_key() < *key {
                proof {
                    assert forall|j: int| 0 <= j < mid + 1 implies (
                    #[trigger] self.spec_fence_pointers()[j]).high_spec() < *key by {
                        if j < mid {
                            if j >= lo {
                                assert(self.spec_fence_pointers()[j].high_spec()
                                    < self.spec_fence_pointers()[mid as int].low_spec());
                                assert(self.spec_fence_pointers()[mid as int].low_spec()
                                    <= self.spec_fence_pointers()[mid as int].high_spec());
                            }
                        }
                    }
                }
                lo = mid + 1;
            } else if *key < fp.low_key() {
                proof {
                    assert forall|j: int| mid <= j < self.spec_num_blocks() implies *key < (
                    #[trigger] self.spec_fence_pointers()[j]).low_spec() by {
                        if j > mid {
                            assert(self.spec_fence_pointers()[mid as int].high_spec()
                                < self.spec_fence_pointers()[j].low_spec());
                            assert(self.spec_fence_pointers()[mid as int].low_spec()
                                <= self.spec_fence_pointers()[mid as int].high_spec());
                        }
                    }
                }
                hi = mid;
            } else {
                return Some(mid as u64);
            }
        }
        None
    }

    /// Decompresses and decodes the block at index `j` into its items.
    fn decode_block(&self, j: usize) -> (r: Vec<Item>)
        requires
            self.wf(),
            j < self.spec_num_blocks(),
        ensures
            r.deep_view() == self.spec_block_items()[j as int],
    {
        let ghost seg = self.spec_block_items()[j as int];
        let ghost comp = deflate_of(spec_encode_items(seg));
        let block = &self.blocks[j];
        proof {
            assert(block@ == self.spec_blocks()[j as int]);
            assert(block@ == comp + Seq::new(
                (self.spec_block_size() - comp.len()) as nat,
                |i: int| 4u8,
            ));
        }
        let decompressed = match deflate_decompress(block) {
            Some(d) => d,
            None => {
                proof {
                    assert(false);
                }
                Vec::new()
            },
        };
        proof {
            assert(decompressed@ == spec_encode_items(seg));
        }
        decode_items(&decompressed, Ghost(seg))
    }

    /// Reads the block at `page`, decompresses and decodes it, and scans
    /// it for the key; answers what that block stores under the key.
    pub fn get_from_block(&self, page: u64, key: &i32) -> (r: Result<
        Option<Option<Vec<u8>>>,
        RunError,
    >)
        requires
            self.wf(),
            page < self.spec_num_blocks(),
        ensures
            r matches Ok(v) && v.deep_view() == items_lookup(
                self.spec_block_items()[page as int],
                *key,
            ),
    {
        let ghost seg = self.spec_block_items()[page as int];
        if page > usize::MAX as u64 {
            proof {
                assert(false);
            }
            return Err(RunError::DeserializeError);
        }
        let decoded = self.decode_block(page as usize);
        let mut i: usize = 0;
        while i < decoded.len()
            invariant
                decoded.deep_view() == seg,
                self.wf(),
                page < self.spec_num_blocks(),
                seg == self.spec_block_items()[page as int],
                i <= decoded@.len(),
                forall|p: int| 0 <= p < i ==> (#[trigger] seg[p]).key != *key,
            decreases decoded@.len() - i,
        {
            let it = &decoded[i];
            proof {
                assert(it@ == seg[i as int]);
            }
            if it.key_ref() == *key {
                let value = it.clone_value();
                proof {
                    crate::merge::lemma_sorted_lookup_at(seg, i as int);
                    assert(Some(value).deep_view() =~~= items_lookup(seg, *key));
                }
                return Ok(Some(value));
            }
            i = i + 1;
        }
        proof {
            crate::merge::lemma_lookup_none(seg, *key);
        }
        Ok(None)
    }

    /// Answers what the run stores under the key: the live value, the
    /// tombstone, or nothing. Consults the Bloom filter, then the fence
    /// pointers, and reads at most one block.
    pub fn get_from_run(&self, key: &i32) -> (r: Option<Option<Vec<u8>>>)
        requires
            self.wf(),
        ensures
            r.deep_view() == items_lookup(self@, *key),
    {
        if !self.bloom_filter.contains(key) {
            proof {
                if items_has_key(self@, *key) {
                    lemma_lookup_implies_key_present(self@, *key);
                    let i = choose|i: int|
                        0 <= i < self@.len() && (#[trigger] self@[i]).key == *key;
                    assert(self.spec_filter().has_key(self@[i].key));
                    assert(false);
                }
            }
            return None;
        }
        let page = match self.get_page_index(key) {
            Some(p) => p,
            None => {
                proof {
                    self.lemma_key_outside_all_fences(*key);
                }
                return None;
            },
        };
        proof {
            self.lemma_key_only_in_block(page as int, *key);
        }
        match self.get_from_block(page, key) {
            Ok(v) => v,
            Err(_e) => None,
        }
    }
}

/// Filter soundness: a key present in a run always passes the run's
/// Bloom filter.
pub proof fn lemma_filter_soundness(run: Run, key: i32)
    requires
        run.wf(),
        items_has_key(run@, key),
    ensures
        run.spec_filter().has_key(key),
{
    lemma_lookup_implies_key_present(run@, key);
    let i = choose|i: int| 0 <= i < run@.len() && (#[trigger] run@[i]).key == key;
    assert(run.spec_filter().has_key(run@[i].key));
}

/// Fence soundness: a key present in a run falls in the range of exactly
/// one block's fence pointer.
pub proof fn lemma_fence_soundness(run: Run, key: i32)
    requires
        run.wf(),
        items_has_key(run@, key),
    ensures
        exists|j: int|
            0 <= j < run.spec_num_blocks() && (#[trigger] run.spec_fence_pointers()[j]).contains_key(
                key as int,
            ),
        forall|j1: int, j2: int|
            (0 <= j1 < run.spec_num_blocks() && run.spec_fence_pointers()[j1].contains_key(
                key as int,
            ) && 0 <= j2 < run.spec_num_blocks() && run.spec_fence_pointers()[j2].contains_key(
                key as int,
            )) ==> j1 == j2,
{
    lemma_flatten_lookup(run.spec_block_items(), key);
    lemma_blocks_lookup_witness(run.spec_block_items(), key);
    let j = choose|j: int|
        0 <= j < run.spec_block_items().len() && items_has_key(
            #[trigger] run.spec_block_items()[j],
            key,
        );
    let seg = run.spec_block_items()[j];
    lemma_lookup_implies_key_present(seg, key);
    let p = choose|p: int| 0 <= p < seg.len() && (#[trigger] seg[p]).key == key;
    assert(seg.first().key <= seg[p].key) by {
        if p > 0 {
            assert(seg[0].key < seg[p].key);
        }
    }
    assert(seg[p].key <= seg.last().key) by {
        if p < seg.len() - 1 {
            assert(seg[p].key < seg[seg.len() - 1].key);
        }
    }
    assert(run.spec_fence_pointers()[j].contains_key(key as int));
    assert forall|j1: int, j2: int|
        (0 <= j1 < run.spec_num_blocks() && run.spec_fence_pointers()[j1].contains_key(key as int)
            && 0 <= j2 < run.spec_num_blocks() && run.spec_fence_pointers()[j2].contains_key(
            key as int,
        )) implies j1 == j2 by {
        if j1 < j2 {
            assert(run.spec_fence_pointers()[j1].high_spec() < run.spec_fence_pointers()[
                j2].low_spec());
        }
        if j2 < j1 {
            assert(run.spec_fence_pointers()[j2].high_spec() < run.spec_fence_pointers()[
                j1].low_spec());
        }
    }
}


/// Streams a run's items in key order, loading and decoding one block
/// at a time; reaching the end of a block's stream means moving on to
/// the next block.
pub struct RunIterator<'a> {
    run: &'a Run,
    block: usize,
    pos: usize,
    current: Vec<Item>,
    count: Ghost<int>,
}

impl<'a> RunIterator<'a> {
    /// The full item sequence the iterator walks.
    pub closed spec fn items_of(&self) -> Seq<ItemModel> {
        self.run@
    }

    /// How many items have been yielded so far.
    pub closed spec fn emitted(&self) -> int {
        self.count@
    }

    /// The iterator either stands inside a block, with the rest of the
    /// run equal to the rest of that block followed by the later blocks,
    /// or it is exhausted.
    pub closed spec fn inv(&self) -> bool {
        &&& self.run.wf()
        &&& 0 <= self.count@ <= self.run@.len()
        &&& self.pos <= self.current.deep_view().len()
        &&& if self.block < self.run.spec_num_blocks() {
            &&& self.current.deep_view() == self.run.spec_block_items()[self.block as int]
            &&& self.run@.skip(self.count@) == self.current.deep_view().skip(self.pos as int)
                + self.run.spec_block_items().skip(self.block + 1).flatten()
        } else {
            &&& self.block == self.run.spec_num_blocks()
            &&& self.count@ == self.run@.len()
            &&& self.pos == self.current.deep_view().len()
        }
    }

    /// Yields the next item, in key order: the `emitted()`-th item of
    /// the run, or `None` once all items have been yielded.
    pub fn next(&mut self) -> (r: Option<Item>)
        requires
            old(self).inv(),
        ensures
            final(self).inv(),
            final(self).items_of() == old(self).items_of(),
            old(self).emitted() < old(self).items_of().len() ==> (r matches Some(item)
                && item@ == old(self).items_of()[old(self).emitted()]
                && final(self).emitted() == old(self).emitted() + 1),
            old(self).emitted() >= old(self).items_of().len() ==> (r is None
                && final(self).emitted() == old(self).emitted()),
    {
        let ghost cnt = self.count@;
        if self.pos < self.current.len() {
            let item = self.current[self.pos].duplicate();
            proof {
                let cur = self.current.deep_view();
                let tail = self.run.spec_block_items().skip(self.block + 1).flatten();
                assert(cur.skip(self.pos as int).len() >= 1);
                assert(self.run@.skip(cnt).len() == self.run@.len() - cnt);
                assert(cnt < self.run@.len());
                assert(self.run@.skip(cnt)[0] == self.run@[cnt]);
                assert((cur.skip(self.pos as int) + tail)[0] == cur.skip(self.pos as int)[0]);
                assert(cur.skip(self.pos as int)[0] == cur[self.pos as int]);
                assert(item@ == self.run@[cnt]);
            }
            self.pos = self.pos + 1;
            proof {
                let cur = self.current.deep_view();
                let tail = self.run.spec_block_items().skip(self.block + 1).flatten();
                self.count = Ghost(cnt + 1);
                assert(self.run@.skip(cnt + 1) =~= self.run@.skip(cnt).drop_first());
                assert(self.run@.skip(cnt).drop_first() =~= cur.skip(self.pos - 1).drop_first()
                    + tail);
                assert(cur.skip(self.pos - 1).drop_first() =~= cur.skip(self.pos as int));
            }
            Some(item)
        } else if self.block < self.run.num_blocks && self.block + 1 < self.run.num_blocks {
            let nb = self.block + 1;
            proof {
                let segs = self.run.spec_block_items();
                assert(self.current.deep_view().skip(self.pos as int)
                    =~= Seq::<ItemModel>::empty());
                assert(self.run@.skip(cnt) =~= segs.skip(self.block + 1).flatten());
                assert(segs.skip(nb as int)[0] == segs[nb as int]);
                assert(segs.skip(nb as int).drop_first() =~= segs.skip(nb as int + 1));
                assert(segs.skip(nb as int).flatten() == segs[nb as int] + segs.skip(
                    nb as int + 1,
                ).flatten());
            }
            let loaded = self.run.decode_block(nb);
            self.current = loaded;
            self.block = nb;
            self.pos = 0;
            let item = self.current[0].duplicate();
            proof {
                let cur = self.current.deep_view();
                let tail = self.run.spec_block_items().skip(self.block + 1).flatten();
                assert(self.run@.skip(cnt) == cur + tail);
                assert(cur.skip(0) =~= cur);
                assert(self.run@.skip(cnt)[0] == self.run@[cnt]);
                assert((cur + tail)[0] == cur[0]);
                assert(item@ == self.run@[cnt]);
            }
            self.pos = 1;
            proof {
                let cur = self.current.deep_view();
                let tail = self.run.spec_block_items().skip(self.block + 1).flatten();
                self.count = Ghost(cnt + 1);
                assert(self.run@.skip(cnt + 1) =~= self.run@.skip(cnt).drop_first());
                assert((cur + tail).drop_first() =~= cur.drop_first() + tail);
                assert(cur.drop_first() =~= cur.skip(1));
            }
            Some(item)
        } else {
            proof {
                if self.block < self.run.spec_num_blocks() {
                    let segs = self.run.spec_block_items();
                    assert(self.current.deep_view().skip(self.pos as int)
                        =~= Seq::<ItemModel>::empty());
                    assert(segs.skip(self.block + 1) =~= Seq::<Seq<ItemModel>>::empty());
                    assert(self.run@.skip(cnt) =~= Seq::<ItemModel>::empty());
                    assert(cnt == self.run@.len());
                }
            }
            self.block = self.run.num_blocks;
            proof {
                assert(self.pos == self.current.deep_view().len());
            }
            None
        }
    }
}

impl Run {
    /// An iterator over the run's items in key order, with the first
    /// block loaded.
    pub fn iterate(&self) -> (it: RunIterator)
        requires
            self.wf(),
        ensures
            it.inv(),
            it.emitted() == 0,
            it.items_of() == self@,
    {
        let current = self.decode_block(0);
        let it = RunIterator { run: self, block: 0, pos: 0, current, count: Ghost(0) };
        proof {
            let segs = self.spec_block_items();
            assert(segs.skip(0) =~= segs);
            assert(segs.skip(0)[0] == segs[0]);
            assert(segs.skip(0).drop_first() =~= segs.skip(1));
            assert(segs.skip(0).flatten() == segs[0] + segs.skip(1).flatten());
            assert(self@.skip(0) =~= self@);
            assert(it.current.deep_view().skip(0) =~= it.current.deep_view());
            assert(self@.skip(0) == it.current.deep_view().skip(0) + segs.skip(1).flatten());
        }
        it
    }
}

impl Run {
    /// Builds a level-1 run from a memtable's entries; fails on an empty
    /// memtable. For every key, the run then stores exactly what the
    /// memtable stored.
    pub fn new_from_skipmap(
        memory_map: &crossbeam_skiplist::SkipMap<i32, Option<Vec<u8>>>,
        config: &Config,
    ) -> (r: Result<Run, RunError>)
        requires
            config.wf(),
        ensures
            r matches Ok(run) ==> run.wf() && run.spec_level() == 1 && run.spec_block_size()
                == config.spec_block_size() && run@ == spec_entries(skip_map_model(*memory_map))
                && run.spec_num_elements() == skip_map_model(*memory_map).dom().len() && (forall|
                k: i32,
            |
                items_lookup(run@, k) == (if skip_map_model(*memory_map).dom().contains(k as int) {
                    Some(skip_map_model(*memory_map)[k as int])
                } else {
                    None
                })),
            r matches Err(e) ==> e is RunCreationError,
            r is Ok <==> ({
                let s = spec_entries(skip_map_model(*memory_map));
                &&& s.len() >= 1
                &&& config.spec_block_size() <= usize::MAX
                &&& (forall|i: int| 0 <= i < s.len() ==> item_size_ok(#[trigger] s[i]))
                &&& spec_blocks_fit(s, 0, config.spec_block_size() as int)
            }),
    {
        let num_elements = skip_map_len(memory_map);
        let items = skip_map_items(memory_map);
        let ghost a = items.deep_view();
        let ghost model = skip_map_model(*memory_map);
        proof {
            assert(a.len() == items@.len());
            assert forall|i: int, j: int| 0 <= i < j < a.len() implies a[i].key < a[j].key by {
                assert(a[i] == items@[i].deep_view());
                assert(a[j] == items@[j].deep_view());
            }
            assert(spec_entries_match(model, a)) by {
                assert forall|i: int| 0 <= i < a.len() implies model.contains_pair(
                    (#[trigger] a[i]).key as int,
                    a[i].value,
                ) by {
                    assert(a[i] == items@[i].deep_view());
                }
                assert forall|k: int| #[trigger] model.dom().contains(k) implies exists|i: int|
                    0 <= i < a.len() && (#[trigger] a[i]).key == k by {
                    let i = choose|i: int|
                        0 <= i < items@.len() && (#[trigger] items@[i])@.key == k;
                    assert(a[i] == items@[i].deep_view());
                    assert(0 <= i < a.len() && a[i].key == k);
                }
            }
            assert(spec_entries_match(model, spec_entries(model))) by {
                assert(exists|s: Seq<ItemModel>| spec_entries_match(model, s));
            }
            lemma_entries_unique(model, spec_entries(model), a);
            assert(spec_entries(model) == a);
        }
        if items.len() == 0 {
            return Err(RunError::RunCreationError);
        }
        let run = match Run::run_from_items(&items, config, 1, num_elements) {
            Ok(run) => run,
            Err(_e) => {
                return Err(RunError::RunCreationError);
            },
        };
        proof {
            assert forall|k: i32|
                items_lookup(run@, k) == (if model.dom().contains(k as int) {
                    Some(model[k as int])
                } else {
                    None
                }) by {
                if model.dom().contains(k as int) {
                    let i = choose|i: int| 0 <= i < items@.len() && (#[trigger] items@[i])@.key == k;
                    assert(model.contains_pair(items@[i]@.key as int, items@[i]@.value));
                    assert(a[i] == items@[i].deep_view());
                    crate::merge::lemma_sorted_lookup_at(a, i);
                } else {
                    assert forall|i: int| 0 <= i < a.len() implies (#[trigger] a[i]).key != k by {
                        assert(model.contains_pair(items@[i]@.key as int, items@[i]@.value));
                        assert(a[i] == items@[i].deep_view());
                    }
                    crate::merge::lemma_lookup_none(a, k);
                }
            }
        }
        Ok(run)
    }

    /// All items of the run, in key order.
    pub fn items_vec(&self) -> (r: Vec<Item>)
        requires
            self.wf(),
        ensures
            r.deep_view() == self@,
    {
        let mut it = self.iterate();
        let mut out: Vec<Item> = Vec::new();
        proof {
            assert(out.deep_view() =~= self@.take(0));
        }
        loop
            invariant
                it.inv(),
                it.items_of() == self@,
                self.wf(),
                0 <= it.emitted() <= self@.len(),
                out.deep_view() == self@.take(it.emitted()),
                out@.len() == it.emitted(),
            decreases self@.len() - it.emitted(),
        {
            match it.next() {
                Some(item) => {
                    out.push(item);
                    proof {
                        assert(out.deep_view() =~= self@.take(it.emitted()));
                    }
                },
                None => {
                    proof {
                        assert(out.deep_view() =~= self@);
                    }
                    return out;
                },
            }
        }
    }

    /// The merged items of two runs, the first being the newer: one
    /// sorted stream in which the newer run wins every key collision.
    pub fn runs_to_iterator(left: &Run, right: &Run) -> (r: Vec<Item>)
        requires
            left.wf(),
            right.wf(),
        ensures
            r.deep_view() == spec_merge(left@, right@),
    {
        let left_items = left.items_vec();
        let right_items = right.items_vec();
        merge_items(&left_items, &right_items)
    }

    /// Consumes the run. The backing storage is the caller's to release.
    pub fn delete(self) -> (r: Result<(), RunError>)
        ensures
            r is Ok,
    {
        Ok(())
    }
}

/// A well-formed run holds at least one item.
pub proof fn lemma_run_nonempty(run: Run)
    requires
        run.wf(),
    ensures
        run@.len() >= 1,
{
    let segs = run.spec_block_items();
    segs.lemma_flatten_and_flatten_alt_are_equivalent();
    segs.lemma_flatten_length_ge_single_element_length(0);
}

/// First-hit lookup over a list of runs ordered oldest first, newest
/// last: the answer of the newest run that stores the key.
pub open spec fn runs_lookup(runs: Seq<Run>, key: i32) -> Option<Option<Seq<u8>>>
    decreases runs.len(),
{
    if runs.len() == 0 {
        None
    } else if items_lookup(runs.last()@, key) is Some {
        items_lookup(runs.last()@, key)
    } else {
        runs_lookup(runs.drop_last(), key)
    }
}

/// Prepending an oldest run changes the first-hit answer only where no
/// newer run stores the key.
pub proof fn lemma_runs_lookup_prepend(oldest: Run, runs: Seq<Run>, key: i32)
    ensures
        runs_lookup(seq![oldest] + runs, key) == if runs_lookup(runs, key) is Some {
            runs_lookup(runs, key)
        } else {
            items_lookup(oldest@, key)
        },
    decreases runs.len(),
{
    if runs.len() == 0 {
        assert(seq![oldest] + runs =~= seq![oldest]);
        assert((seq![oldest]).last() == oldest);
        assert((seq![oldest]).drop_last() =~= Seq::<Run>::empty());
        assert(runs_lookup(Seq::<Run>::empty(), key) is None);
        assert(runs_lookup(seq![oldest], key) == if items_lookup(oldest@, key) is Some {
            items_lookup(oldest@, key)
        } else {
            runs_lookup(Seq::<Run>::empty(), key)
        });
    } else {
        assert((seq![oldest] + runs).last() == runs.last());
        assert((seq![oldest] + runs).drop_last() =~= seq![oldest] + runs.drop_last());
        lemma_runs_lookup_prepend(oldest, runs.drop_last(), key);
    }
}

/// The k-way merge of a list of runs given newest last: the pairwise
/// recency merge folded over the runs from newest to oldest.
pub open spec fn spec_merged_runs(runs: Seq<Run>) -> Seq<ItemModel>
    decreases runs.len(),
{
    if runs.len() == 0 {
        Seq::empty()
    } else if runs.len() == 1 {
        runs[0]@
    } else {
        spec_merge(spec_merged_runs(runs.drop_first()), runs[0]@)
    }
}

impl Run {
    /// Merges two or more runs, given newest last, into a single run at
    /// `level`: for every key the merged run answers exactly what the
    /// newest run storing that key answered.
    pub fn new_from_merge(runs: &Vec<Run>, config: &Config, level: usize) -> (r: Result<
        Run,
        RunError,
    >)
        requires
            config.wf(),
            runs@.len() >= 2,
            forall|i: int| 0 <= i < runs@.len() ==> (#[trigger] runs@[i]).wf(),
        ensures
            r matches Ok(run) ==> run.wf() && run.spec_level() == level && run.spec_block_size()
                == config.spec_block_size() && run@ == spec_merged_runs(runs@) && (forall|k: i32|
                items_lookup(run@, k) == runs_lookup(runs@, k)),
            r matches Err(e) ==> e is RunCreationError,
            r is Ok <==> (config.spec_block_size() <= usize::MAX && (forall|i: int|
                0 <= i < spec_merged_runs(runs@).len() ==> item_size_ok(
                    #[trigger] spec_merged_runs(runs@)[i],
                )) && spec_blocks_fit(
                spec_merged_runs(runs@),
                0,
                config.spec_block_size() as int,
            )),
    {
        let newest = &runs[runs.len() - 1];
        let mut acc: Vec<Item> = newest.items_vec();
        let mut num_elements_wide: u128 = newest.num_elements as u128;
        let mut i: usize = runs.len() - 1;
        proof {
            lemma_run_nonempty(runs@[runs@.len() - 1]);
            let tail = runs@.skip(runs@.len() - 1);
            assert(tail =~= seq![runs@[runs@.len() - 1]]);
            assert(tail.last() == runs@[runs@.len() - 1]);
            assert(tail.drop_last() =~= Seq::<Run>::empty());
            assert(tail[0] == runs@[runs@.len() - 1]);
            assert(spec_merged_runs(tail) == tail[0]@);
            assert(acc.deep_view() == spec_merged_runs(tail));
            assert forall|k: i32|
                items_lookup(acc.deep_view(), k) == runs_lookup(tail, k) by {
                assert(acc.deep_view() == tail.last()@);
                if items_lookup(tail.last()@, k) is Some {
                } else {
                    assert(runs_lookup(tail, k) == runs_lookup(Seq::<Run>::empty(), k));
                }
            }
        }
        while i > 0
            invariant
                config.wf(),
                runs@.len() >= 2,
                forall|j: int| 0 <= j < runs@.len() ==> (#[trigger] runs@[j]).wf(),
                0 <= i < runs@.len(),
                sorted_strict(acc.deep_view()),
                acc@.len() >= 1,
                acc.deep_view() == spec_merged_runs(runs@.skip(i as int)),
                forall|k: i32|
                    items_lookup(acc.deep_view(), k) == runs_lookup(runs@.skip(i as int), k),
            decreases i,
        {
            i = i - 1;
            let older = &runs[i];
            let ghost prev = acc.deep_view();
            let older_items = older.items_vec();
            let merged = merge_items(&acc, &older_items);
            proof {
                lemma_merge_sorted(prev, older@);
                crate::merge::lemma_key_present_implies_lookup(prev, 0);
                lemma_merge_lookup(prev, older@, prev[0].key);
                if spec_merge(prev, older@).len() == 0 {
                    assert(items_lookup(spec_merge(prev, older@), prev[0].key) is None);
                    assert(false);
                }
                assert(runs@.skip(i as int)[0] == runs@[i as int]);
                assert(runs@.skip(i as int).drop_first() =~= runs@.skip(i as int + 1));
                assert(runs@.skip(i as int).len() >= 2);
                assert(spec_merged_runs(runs@.skip(i as int)) == spec_merge(
                    spec_merged_runs(runs@.skip(i as int + 1)),
                    runs@[i as int]@,
                ));
                assert(merged.deep_view() == spec_merged_runs(runs@.skip(i as int)));
                assert forall|k: i32|
                    items_lookup(merged.deep_view(), k) == runs_lookup(
                        runs@.skip(i as int),
                        k,
                    ) by {
                    lemma_merge_lookup(prev, older@, k);
                    assert(runs@.skip(i as int) =~= seq![runs@[i as int]] + runs@.skip(
                        i as int + 1,
                    ));
                    lemma_runs_lookup_prepend(runs@[i as int], runs@.skip(i as int + 1), k);
                }
            }
            acc = merged;
            num_elements_wide = if num_elements_wide > u128::MAX - older.num_elements as u128 {
                u128::MAX
            } else {
                num_elements_wide + older.num_elements as u128
            };
        }
        let num_elements: usize = if num_elements_wide > usize::MAX as u128 {
            usize::MAX
        } else {
            num_elements_wide as usize
        };
        proof {
            assert(runs@.skip(0) =~= runs@);
            assert(acc.deep_view() == spec_merged_runs(runs@));
        }
        let run = match Run::run_from_items(&acc, config, level, num_elements) {
            Ok(run) => run,
            Err(_e) => {
                return Err(RunError::RunCreationError);
            },
        };
        proof {
            assert(runs@.skip(0) =~= runs@);
            assert(spec_merged_runs(runs@.skip(0)) == spec_merged_runs(runs@));
        }
        Ok(run)
    }
}

impl Run {
    /// Merges a memtable into an existing level-1 run, without
    /// consuming the memtable: the memtable's entries win every key
    /// collision, and the result is a fresh level-1 run answering for
    /// both.
    pub fn merge_memory_map_into_run(
        map: &crossbeam_skiplist::SkipMap<i32, Option<Vec<u8>>>,
        run: &Run,
        config: &Config,
    ) -> (r: Result<Run, RunError>)
        requires
            config.wf(),
            run.wf(),
            run.spec_level() == 1,
        ensures
            r matches Ok(merged) ==> merged.wf() && merged.spec_level() == 1 && merged@
                == spec_merge(spec_entries(skip_map_model(*map)), run@) && (forall|k: i32|
                items_lookup(merged@, k) == (if skip_map_model(*map).dom().contains(k as int) {
                    Some(skip_map_model(*map)[k as int])
                } else {
                    items_lookup(run@, k)
                })),
            r matches Err(e) ==> e is RunCreationError,
            r is Ok <==> ({
                let s = spec_merge(spec_entries(skip_map_model(*map)), run@);
                &&& config.spec_block_size() <= usize::MAX
                &&& (forall|i: int| 0 <= i < s.len() ==> item_size_ok(#[trigger] s[i]))
                &&& spec_blocks_fit(s, 0, config.spec_block_size() as int)
            }),
    {
        let num_elements_wide: u128 = (skip_map_len(map) as u128) + (run.num_elements as u128);
        let num_elements: usize = if num_elements_wide > usize::MAX as u128 {
            usize::MAX
        } else {
            num_elements_wide as usize
        };
        let map_items = skip_map_items(map);
        let ghost m = skip_map_model(*map);
        let ghost a = map_items.deep_view();
        proof {
            assert(a.len() == map_items@.len());
            assert forall|i: int, j: int| 0 <= i < j < a.len() implies a[i].key < a[j].key by {
                assert(a[i] == map_items@[i].deep_view());
                assert(a[j] == map_items@[j].deep_view());
            }
            assert(spec_entries_match(m, a)) by {
                assert forall|i: int| 0 <= i < a.len() implies m.contains_pair(
                    (#[trigger] a[i]).key as int,
                    a[i].value,
                ) by {
                    assert(a[i] == map_items@[i].deep_view());
                }
                assert forall|k: int| #[trigger] m.dom().contains(k) implies exists|i: int|
                    0 <= i < a.len() && (#[trigger] a[i]).key == k by {
                    let i = choose|i: int|
                        0 <= i < map_items@.len() && (#[trigger] map_items@[i])@.key == k;
                    assert(a[i] == map_items@[i].deep_view());
                    assert(0 <= i < a.len() && a[i].key == k);
                }
            }
            assert(spec_entries_match(m, spec_entries(m))) by {
                assert(exists|s: Seq<ItemModel>| spec_entries_match(m, s));
            }
            lemma_entries_unique(m, spec_entries(m), a);
            assert(spec_entries(m) == a);
        }
        let run_items = run.items_vec();
        let merged_items = merge_items(&map_items, &run_items);
        proof {
            lemma_merge_sorted(a, run@);
            lemma_run_nonempty(*run);
            crate::merge::lemma_key_present_implies_lookup(run@, 0);
            lemma_merge_lookup(a, run@, run@[0].key);
            if spec_merge(a, run@).len() == 0 {
                assert(items_lookup(spec_merge(a, run@), run@[0].key) is None);
                assert(false);
            }
        }
        let merged = match Run::run_from_items(&merged_items, config, 1, num_elements) {
            Ok(r) => r,
            Err(_e) => {
                return Err(RunError::RunCreationError);
            },
        };
        proof {
            assert forall|k: i32|
                items_lookup(merged@, k) == (if m.dom().contains(k as int) {
                    Some(m[k as int])
                } else {
                    items_lookup(run@, k)
                }) by {
                lemma_merge_lookup(a, run@, k);
                if m.dom().contains(k as int) {
                    let i = choose|i: int|
                        0 <= i < map_items@.len() && (#[trigger] map_items@[i])@.key == k;
                    assert(m.contains_pair(map_items@[i]@.key as int, map_items@[i]@.value));
                    assert(a[i] == map_items@[i].deep_view());
                    crate::merge::lemma_sorted_lookup_at(a, i);
                } else {
                    assert forall|i: int| 0 <= i < a.len() implies (#[trigger] a[i]).key != k by {
                        assert(m.contains_pair(map_items@[i]@.key as int, map_items@[i]@.value));
                        assert(a[i] == map_items@[i].deep_view());
                    }
                    crate::merge::lemma_lookup_none(a, k);
                }
            }
        }
        Ok(merged)
    }
}

/// An ordered group of runs at one depth of the store; the newest run
/// stands last.
pub struct Level {
    pub num_runs: usize,
    pub runs: Vec<Run>,
}

impl Level {
    /// A level is well formed when its count matches and every run is.
    pub open spec fn wf(&self) -> bool {
        &&& self.num_runs == self.runs@.len()
        &&& forall|i: int| 0 <= i < self.runs@.len() ==> (#[trigger] self.runs@[i]).wf()
    }

    /// What the level stores under the key: the newest run's answer.
    pub open spec fn spec_lookup(&self, key: i32) -> Option<Option<Seq<u8>>> {
        runs_lookup(self.runs@, key)
    }

    /// Asks each run, newest first, and answers the first hit.
    pub fn get_from_level(&self, key: &i32) -> (r: Option<Option<Vec<u8>>>)
        requires
            self.wf(),
        ensures
            r.deep_view() == self.spec_lookup(*key),
    {
        let mut i: usize = self.runs.len();
        proof {
            assert(self.runs@.take(i as int) =~= self.runs@);
        }
        while i > 0
            invariant
                self.wf(),
                i <= self.runs@.len(),
                runs_lookup(self.runs@, *key) == runs_lookup(self.runs@.take(i as int), *key),
            decreases i,
        {
            i = i - 1;
            let maybe_res = self.runs[i].get_from_run(key);
            proof {
                assert(self.runs@.take(i + 1).last() == self.runs@[i as int]);
                assert(self.runs@.take(i + 1).drop_last() =~= self.runs@.take(i as int));
            }
            if maybe_res.is_some() {
                return maybe_res;
            }
        }
        proof {
            assert(self.runs@.take(0) =~= Seq::<Run>::empty());
        }
        None
    }
}


/// Iterator monotonicity: a run's items, as its iterator yields them,
/// stand in strictly increasing key order.
pub proof fn lemma_iterator_monotonic(run: Run, i: int, j: int)
    requires
        run.wf(),
        0 <= i < j < run@.len(),
    ensures
        run@[i].key < run@[j].key,
{
}

/// One fence pointer as bytes: the low and high key, little endian.
pub open spec fn spec_fence_bytes(fp: FencePointer<i32>) -> Seq<u8> {
    spec_u32_to_le_bytes(fp.low_spec() as u32) + spec_u32_to_le_bytes(fp.high_spec() as u32)
}

/// The fence pointer array as bytes, in block order.
pub open spec fn spec_fences_bytes(fps: Seq<FencePointer<i32>>) -> Seq<u8>
    decreases fps.len(),
{
    if fps.len() == 0 {
        Seq::empty()
    } else {
        spec_fence_bytes(fps[0]) + spec_fences_bytes(fps.drop_first())
    }
}

proof fn lemma_fences_bytes_push(fps: Seq<FencePointer<i32>>, fp: FencePointer<i32>)
    ensures
        spec_fences_bytes(fps.push(fp)) == spec_fences_bytes(fps) + spec_fence_bytes(fp),
    decreases fps.len(),
{
    if fps.len() == 0 {
        assert(fps.push(fp)[0] == fp);
        assert(fps.push(fp).drop_first() =~= Seq::<FencePointer<i32>>::empty());
        assert(spec_fences_bytes(fps.push(fp)) == spec_fence_bytes(fp) + spec_fences_bytes(
            Seq::<FencePointer<i32>>::empty(),
        ));
        assert(spec_fences_bytes(Seq::<FencePointer<i32>>::empty()) == Seq::<u8>::empty());
        assert(spec_fence_bytes(fp) + Seq::<u8>::empty() =~= spec_fence_bytes(fp));
        assert(spec_fences_bytes(fps) + spec_fence_bytes(fp) =~= spec_fence_bytes(fp));
    } else {
        lemma_fences_bytes_push(fps.drop_first(), fp);
        assert(fps.push(fp)[0] == fps[0]);
        assert(fps.push(fp).drop_first() =~= fps.drop_first().push(fp));
        assert(spec_fences_bytes(fps.push(fp)) =~= spec_fences_bytes(fps) + spec_fence_bytes(fp));
    }
}

impl Run {
    /// The run's trailer: its metadata — level, block size, counts,
    /// the fence pointer array and the serialized Bloom filter — as the
    /// bytes that follow the data blocks in the file.
    pub open spec fn spec_trailer(&self) -> Seq<u8> {
        spec_u64_to_le_bytes(self.spec_level() as u64) + spec_u64_to_le_bytes(
            self.spec_block_size(),
        ) + spec_u64_to_le_bytes(self.spec_num_blocks() as u64) + spec_u64_to_le_bytes(
            self.spec_num_elements() as u64,
        ) + spec_u64_to_le_bytes(self.spec_fence_pointers().len() as u64) + spec_fences_bytes(
            self.spec_fence_pointers(),
        ) + self.spec_filter().spec_serialized()
    }

    /// The bytes of the run's on-disk file: the data blocks back to
    /// back, the trailer, and the trailer's length as the final eight
    /// bytes, so a reader can locate the trailer from the file end.
    pub open spec fn spec_file_image(&self) -> Seq<u8> {
        self.spec_blocks().flatten() + self.spec_trailer() + spec_u64_to_le_bytes(
            self.spec_trailer().len() as u64,
        )
    }

    /// The on-disk image of the run, as `spec_file_image` lays it out.
    pub fn file_image(&self) -> (r: Vec<u8>)
        requires
            self.wf(),
        ensures
            r@ == self.spec_file_image(),
    {
        let mut out: Vec<u8> = Vec::new();
        let mut j: usize = 0;
        proof {
            assert(self.spec_blocks().take(0) =~= Seq::<Seq<u8>>::empty());
            assert(out@ =~= self.spec_blocks().take(0).flatten());
        }
        while j < self.blocks.len()
            invariant
                self.wf(),
                j <= self.spec_blocks().len(),
                out@ == self.spec_blocks().take(j as int).flatten(),
            decreases self.spec_blocks().len() - j,
        {
            crate::codec::append_bytes(&mut out, &self.blocks[j]);
            j = j + 1;
            proof {
                let taken = self.spec_blocks().take(j - 1);
                taken.lemma_flatten_push(self.spec_blocks()[j - 1]);
                assert(self.spec_blocks().take(j as int) =~= taken.push(
                    self.spec_blocks()[j - 1],
                ));
                assert(self.blocks@[j - 1]@ == self.spec_blocks()[j - 1]);
                assert(out@ =~= self.spec_blocks().take(j as int).flatten());
            }
        }
        proof {
            assert(self.spec_blocks().take(self.spec_blocks().len() as int)
                =~= self.spec_blocks());
        }
        let mut trailer: Vec<u8> = Vec::new();
        let level_bytes = u64_to_le_bytes(self.level as u64);
        crate::codec::append_bytes(&mut trailer, &level_bytes);
        let bs_bytes = u64_to_le_bytes(self.block_size);
        crate::codec::append_bytes(&mut trailer, &bs_bytes);
        let nb_bytes = u64_to_le_bytes(self.num_blocks as u64);
        crate::codec::append_bytes(&mut trailer, &nb_bytes);
        let ne_bytes = u64_to_le_bytes(self.num_elements as u64);
        crate::codec::append_bytes(&mut trailer, &ne_bytes);
        let fc_bytes = u64_to_le_bytes(self.fence_pointers.len() as u64);
        crate::codec::append_bytes(&mut trailer, &fc_bytes);
        let ghost head = spec_u64_to_le_bytes(self.spec_level() as u64) + spec_u64_to_le_bytes(
            self.spec_block_size(),
        ) + spec_u64_to_le_bytes(self.spec_num_blocks() as u64) + spec_u64_to_le_bytes(
            self.spec_num_elements() as u64,
        ) + spec_u64_to_le_bytes(self.spec_fence_pointers().len() as u64);
        let mut f: usize = 0;
        proof {
            assert(self.spec_fence_pointers().take(0) =~= Seq::<FencePointer<i32>>::empty());
            assert(spec_fences_bytes(self.spec_fence_pointers().take(0)) == Seq::<u8>::empty());
            assert(trailer@ =~= head + spec_fences_bytes(self.spec_fence_pointers().take(0)));
        }
        while f < self.fence_pointers.len()
            invariant
                self.wf(),
                f <= self.spec_fence_pointers().len(),
                trailer@ == head + spec_fences_bytes(self.spec_fence_pointers().take(f as int)),
            decreases self.spec_fence_pointers().len() - f,
        {
            let fp = &self.fence_pointers[f];
            let low_bytes = u32_to_le_bytes(fp.low_key() as u32);
            crate::codec::append_bytes(&mut trailer, &low_bytes);
            let high_bytes = u32_to_le_bytes(fp.high_key() as u32);
            crate::codec::append_bytes(&mut trailer, &high_bytes);
            f = f + 1;
            proof {
                lemma_fences_bytes_push(
                    self.spec_fence_pointers().take(f - 1),
                    self.spec_fence_pointers()[f - 1],
                );
                assert(self.spec_fence_pointers().take(f as int)
                    =~= self.spec_fence_pointers().take(f - 1).push(
                    self.spec_fence_pointers()[f - 1],
                ));
                assert(trailer@ =~= head + spec_fences_bytes(
                    self.spec_fence_pointers().take(f as int),
                ));
            }
        }
        proof {
            assert(self.spec_fence_pointers().take(self.spec_fence_pointers().len() as int)
                =~= self.spec_fence_pointers());
        }
        self.bloom_filter.serialize_into(&mut trailer);
        proof {
            assert(trailer@ =~= self.spec_trailer());
        }
        let tlen = trailer.len();
        crate::codec::append_bytes(&mut out, &trailer);
        let len_bytes = u64_to_le_bytes(tlen as u64);
        crate::codec::append_bytes(&mut out, &len_bytes);
        proof {
            assert(out@ =~= self.spec_blocks().flatten() + self.spec_trailer()
                + spec_u64_to_le_bytes(self.spec_trailer().len() as u64));
        }
        out
    }
}

} // verus!
