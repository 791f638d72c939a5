//! Approximate-membership filter over run keys.
//!
//! A filter is sized from a target false-positive rate and an expected
//! element count, and hashes each key once per seed set; a key is a
//! member candidate only when every selected bit is set. A key that was
//! inserted always passes the filter; a key that was not passes only
//! with the configured false-positive probability.
//!
//! The false-positive rate is given in parts per million, and the sizing
//! formulas are evaluated in fixed-point integer arithmetic.

use std::hash::{Hash, Hasher};

use vstd::prelude::*;

verus! {

use vstd::bytes::{spec_u64_to_le_bytes, u64_to_le_bytes};

#[verifier::external_type_specification]
#[verifier::external_body]
#[verifier::reject_recursive_types(B)]
pub struct ExBitVec<B>(bit_vec::BitVec<B>);

/// The bits a `bit_vec::BitVec` holds, in index order.
pub uninterp spec fn bit_vec_model(bv: bit_vec::BitVec) -> Seq<bool>;

/// Relies on `BitVec::from_elem`: the vector holds `nbits` copies of
/// `bit`.
#[verifier::external_body]
fn bitvec_from_elem(nbits: usize, bit: bool) -> (r: bit_vec::BitVec)
    ensures
        bit_vec_model(r) == Seq::new(nbits as nat, |i: int| bit),
{
    bit_vec::BitVec::from_elem(nbits, bit)
}

/// Relies on `BitVec::set`: the bit at `i` is replaced and the others
/// are kept; `set` panics outside the vector, so the index is required
/// to be in range.
#[verifier::external_body]
fn bitvec_set(bv: &mut bit_vec::BitVec, i: usize, bit: bool)
    requires
        i < bit_vec_model(*old(bv)).len(),
    ensures
        bit_vec_model(*final(bv)) == bit_vec_model(*old(bv)).update(i as int, bit),
{
    bv.set(i, bit)
}

/// Relies on `BitVec::get`: the bit at `i`, or `None` outside the
/// vector.
#[verifier::external_body]
fn bitvec_get(bv: &bit_vec::BitVec, i: usize) -> (r: Option<bool>)
    ensures
        r == if i < bit_vec_model(*bv).len() {
            Some(bit_vec_model(*bv)[i as int])
        } else {
            None::<bool>
        },
{
    bv.get(i)
}

/// Relies on `BitVec::len`: the number of bits.
#[verifier::external_body]
fn bitvec_len(bv: &bit_vec::BitVec) -> (r: usize)
    ensures
        r == bit_vec_model(*bv).len(),
{
    bv.len()
}

/// Relies on `BitVec::clear`: every bit is set to false and the length
/// is kept.
#[verifier::external_body]
fn bitvec_clear(bv: &mut bit_vec::BitVec)
    ensures
        bit_vec_model(*final(bv)) == Seq::new(
            bit_vec_model(*old(bv)).len(),
            |i: int| false,
        ),
{
    bv.clear()
}

/// What seahash computes for a key under four seeds. The result depends
/// on the seeds and the key alone, on every machine.
pub uninterp spec fn sea_hash_of(k1: u64, k2: u64, k3: u64, k4: u64, key: i32) -> u64;

/// Relies on `SeaHasher::with_seeds` and `Hasher::finish`: hashing the
/// key's bytes under the given seeds is deterministic in its arguments.
#[verifier::external_body]
fn hash_key(k1: u64, k2: u64, k3: u64, k4: u64, key: i32) -> (r: u64)
    ensures
        r == sea_hash_of(k1, k2, k3, k4, key),
{
    let mut hasher = seahash::SeaHasher::with_seeds(k1, k2, k3, k4);
    key.hash(&mut hasher);
    hasher.finish()
}

/// Relies on `rand::thread_rng`: a machine-provided value of which
/// nothing is promised.
#[verifier::external_body]
fn random_u64() -> u64 {
    rand::Rng::gen::<u64>(&mut rand::thread_rng())
}

/// One set of four seeds for the hash function.
pub struct Seeds {
    k1: u64,
    k2: u64,
    k3: u64,
    k4: u64,
}

impl Seeds {
    /// Four seeds drawn once at filter construction.
    pub fn new() -> Seeds {
        Seeds { k1: random_u64(), k2: random_u64(), k3: random_u64(), k4: random_u64() }
    }
}

pub struct BloomFilter {
    bits: bit_vec::BitVec,
    num_hashes: usize,
    seeds: Vec<Seeds>,
}

impl BloomFilter {
    /// The number of bits in the filter.
    pub closed spec fn num_bits(&self) -> nat {
        bit_vec_model(self.bits).len()
    }

    /// The number of hash functions the filter applies per key.
    pub closed spec fn spec_num_hashes(&self) -> usize {
        self.num_hashes
    }

    /// A filter is well formed when it has at least one bit and at least
    /// one seed set, one per hash function.
    pub closed spec fn inv(&self) -> bool {
        &&& self.num_bits() >= 1
        &&& self.seeds@.len() == self.num_hashes
        &&& self.num_hashes >= 1
    }

    /// The bit position one seed set selects for a key.
    closed spec fn spec_index_of(&self, i: int, key: i32) -> int {
        (sea_hash_of(
            self.seeds@[i].k1,
            self.seeds@[i].k2,
            self.seeds@[i].k3,
            self.seeds@[i].k4,
            key,
        ) as int) % (self.num_bits() as int)
    }

    /// Whether every bit the key selects is set: the membership test the
    /// filter answers.
    pub closed spec fn has_key(&self, key: i32) -> bool {
        forall|i: int|
            0 <= i < self.seeds@.len() ==> bit_vec_model(self.bits)[self.spec_index_of(i, key)]
    }

    /// A new filter of `num_bits` bits and `num_hashes` hash functions,
    /// with no key inserted yet.
    pub fn new_with_size(num_bits: usize, num_hashes: usize) -> (r: BloomFilter)
        requires
            num_bits >= 1,
            num_hashes >= 1,
        ensures
            r.inv(),
            r.num_bits() == num_bits,
            r.spec_num_hashes() == num_hashes,
            forall|k: i32| !r.has_key(k),
    {
        let bits = bitvec_from_elem(num_bits, false);
        let mut seeds: Vec<Seeds> = Vec::new();
        let mut i: usize = 0;
        while i < num_hashes
            invariant
                seeds@.len() == i,
                i <= num_hashes,
            decreases num_hashes - i,
        {
            seeds.push(Seeds::new());
            i = i + 1;
        }
        let r = BloomFilter { bits, num_hashes, seeds };
        proof {
            assert forall|k: i32| !r.has_key(k) by {
                assert(!bit_vec_model(r.bits)[r.spec_index_of(0, k)]);
            }
        }
        r
    }

    /// A new filter sized for `expected_num_items` elements and the
    /// false-positive rate `fpr_ppm` (parts per million, in `(0, 1)` as
    /// a rate).
    pub fn new_with_rate(fpr_ppm: u64, expected_num_items: usize) -> (r: BloomFilter)
        requires
            1 <= fpr_ppm < 1000000,
        ensures
            r.inv(),
            r.num_bits() == spec_needed_bits(fpr_ppm as int, expected_num_items as int),
            r.spec_num_hashes() == spec_optimal_num_hashes(
                spec_needed_bits(fpr_ppm as int, expected_num_items as int),
                expected_num_items as int,
            ),
            forall|k: i32| !r.has_key(k),
    {
        let bits = needed_bits(fpr_ppm, expected_num_items);
        BloomFilter::new_with_size(bits, optimal_num_hashes(bits, expected_num_items))
    }

    /// Inserts a key: sets every bit the key selects. Bits are only ever
    /// set, so every previously inserted key still passes.
    pub fn insert(&mut self, item: &i32)
        requires
            old(self).inv(),
        ensures
            final(self).inv(),
            final(self).num_bits() == old(self).num_bits(),
            final(self).has_key(*item),
            forall|k: i32| old(self).has_key(k) ==> final(self).has_key(k),
    {
        let len = bitvec_len(&self.bits);
        let n = self.num_hashes;
        let mut i: usize = 0;
        while i < n
            invariant
                self.inv(),
                self.num_hashes == n,
                self.seeds@ == old(self).seeds@,
                self.num_bits() == old(self).num_bits(),
                len == self.num_bits(),
                i <= n,
                forall|j: int|
                    0 <= j < self.num_bits() && bit_vec_model(old(self).bits)[j]
                        ==> bit_vec_model(self.bits)[j],
                forall|j: int| 0 <= j < i ==> bit_vec_model(self.bits)[self.spec_index_of(j, *item)],
            decreases n - i,
        {
            let s = &self.seeds[i];
            let h = hash_key(s.k1, s.k2, s.k3, s.k4, *item);
            let idx = (h % (len as u64)) as usize;
            proof {
                assert(idx == self.spec_index_of(i as int, *item));
            }
            let ghost prev_self = *self;
            bitvec_set(&mut self.bits, idx, true);
            i = i + 1;
            proof {
                assert(bit_vec_model(self.bits) == bit_vec_model(prev_self.bits).update(
                    idx as int,
                    true,
                ));
                assert(self.num_bits() == prev_self.num_bits());
                assert forall|j: int| 0 <= j < i implies bit_vec_model(self.bits)[
                    self.spec_index_of(j, *item)] by {
                    assert(prev_self.spec_index_of(j, *item) == self.spec_index_of(j, *item));
                    if j < i - 1 {
                        assert(bit_vec_model(prev_self.bits)[prev_self.spec_index_of(j, *item)]);
                    }
                }
            }
        }
        proof {
            assert forall|k: i32| old(self).has_key(k) implies self.has_key(k) by {
                assert forall|j: int| 0 <= j < self.seeds@.len() implies bit_vec_model(
                    self.bits,
                )[self.spec_index_of(j, k)] by {
                    assert(bit_vec_model(old(self).bits)[old(self).spec_index_of(j, k)]);
                }
            }
        }
    }

    /// Whether the key is a member candidate: true for every inserted
    /// key, and for a never-inserted key only on a hash collision.
    pub fn contains(&self, item: &i32) -> (r: bool)
        requires
            self.inv(),
        ensures
            r == self.has_key(*item),
    {
        let len = bitvec_len(&self.bits);
        let n = self.num_hashes;
        let mut i: usize = 0;
        while i < n
            invariant
                self.inv(),
                self.num_hashes == n,
                len == self.num_bits(),
                i <= n,
                forall|j: int| 0 <= j < i ==> bit_vec_model(self.bits)[self.spec_index_of(j, *item)],
            decreases n - i,
        {
            let s = &self.seeds[i];
            let h = hash_key(s.k1, s.k2, s.k3, s.k4, *item);
            let idx = (h % (len as u64)) as usize;
            proof {
                assert(idx == self.spec_index_of(i as int, *item));
            }
            let bit = match bitvec_get(&self.bits, idx) {
                Some(b) => b,
                None => false,
            };
            if !bit {
                proof {
                    assert(!bit_vec_model(self.bits)[self.spec_index_of(i as int, *item)]);
                }
                return false;
            }
            i = i + 1;
        }
        true
    }

    /// Clears the filter: every bit is reset, so no key passes any
    /// longer.
    pub fn clear(&mut self)
        requires
            old(self).inv(),
        ensures
            final(self).inv(),
            final(self).num_bits() == old(self).num_bits(),
            forall|k: i32| !final(self).has_key(k),
    {
        bitvec_clear(&mut self.bits);
        proof {
            assert forall|k: i32| !self.has_key(k) by {
                assert(!bit_vec_model(self.bits)[self.spec_index_of(0, k)]);
            }
        }
    }

    /// The filter's in-memory footprint: its bits, as bytes.
    pub fn size_in_bytes(&self) -> (r: usize)
        requires
            self.inv(),
        ensures
            r == (self.num_bits() + 7) / 8,
    {
        let len = bitvec_len(&self.bits);
        len / 8 + if len % 8 == 0 { 0 } else { 1 }
    }
}

/// `floor(log2(m))` for `m >= 1`.
pub open spec fn spec_log2_floor(m: int) -> int
    decreases m,
{
    if m < 2 {
        0
    } else {
        1 + spec_log2_floor(m / 2)
    }
}

/// Two to the power `e`.
pub open spec fn spec_pow2(e: int) -> int
    decreases e,
{
    if e <= 0 {
        1
    } else {
        2 * spec_pow2(e - 1)
    }
}

proof fn lemma_log2_floor_unique(m: int, e: int)
    requires
        0 <= e,
        spec_pow2(e) <= m < 2 * spec_pow2(e),
    ensures
        spec_log2_floor(m) == e,
    decreases e,
{
    if e == 0 {
    } else {
        assert(spec_pow2(e) == 2 * spec_pow2(e - 1));
        lemma_log2_floor_unique(m / 2, e - 1);
    }
}

/// The natural logarithm of `m >= 1` in thousandths, approximated by
/// linear interpolation of `log2` between neighbouring powers of two,
/// scaled by `ln 2 ~= 0.693`.
pub open spec fn spec_ln_milli(m: int) -> int {
    let e: int = spec_log2_floor(m);
    let p: int = spec_pow2(e);
    (693 * (e * p + (m - p))) / p
}

/// The number of filter bits for false-positive rate `ppm / 1e6` and
/// `n` expected elements: a fixed-point evaluation of
/// `ceil(n * ln(1/fpr) / ln^2(2))`, and at least one bit.
pub open spec fn spec_needed_bits(ppm: int, n: int) -> int {
    let recip: int = 1000000int / ppm;
    let bits: int = (n * spec_ln_milli(recip) * 1000 + 480452) / 480453;
    if bits < 1 {
        1
    } else if bits > usize::MAX {
        usize::MAX as int
    } else {
        bits
    }
}

/// The exponent and power pair `(floor(log2(m)), 2^floor(log2(m)))`.
fn log2_floor(m: u64) -> (r: (u64, u64))
    requires
        m >= 1,
    ensures
        r.0 == spec_log2_floor(m as int),
        r.1 == spec_pow2(r.0 as int),
        r.1 <= m < 2 * r.1,
{
    let mut e: u64 = 0;
    let mut p: u64 = 1;
    while p <= m / 2
        invariant
            1 <= p <= m,
            p == spec_pow2(e as int),
            e <= 63,
        decreases m - p,
    {
        proof {
            if e == 63 {
                lemma_pow2_agrees(63);
                vstd::arithmetic::power2::lemma2_to64_rest();
                assert(spec_pow2(63) == 0x8000000000000000);
            }
        }
        p = p * 2;
        e = e + 1;
    }
    proof {
        lemma_log2_floor_unique(m as int, e as int);
    }
    (e, p)
}

proof fn lemma_pow2_agrees(e: nat)
    ensures
        spec_pow2(e as int) == vstd::arithmetic::power2::pow2(e),
    decreases e,
{
    if e == 0 {
        assert(vstd::arithmetic::power2::pow2(0) == 1) by {
            vstd::arithmetic::power2::lemma2_to64();
        }
    } else {
        lemma_pow2_agrees((e - 1) as nat);
        vstd::arithmetic::power2::lemma_pow2_unfold(e);
    }
}

/// The number of bits needed for the target rate, per
/// `spec_needed_bits`.
pub fn needed_bits(fpr_ppm: u64, num_items: usize) -> (r: usize)
    requires
        1 <= fpr_ppm < 1000000,
    ensures
        r == spec_needed_bits(fpr_ppm as int, num_items as int),
        r >= 1,
{
    let recip: u64 = 1000000 / fpr_ppm;
    proof {
        vstd::arithmetic::div_mod::lemma_div_is_ordered_by_denominator(
            1000000,
            fpr_ppm as int,
            1000000,
        );
        assert(recip >= 1);
    }
    let (e, p) = log2_floor(recip);
    proof {
        assert(recip <= 1000000);
        if e >= 20 {
            lemma_pow2_agrees(e as nat);
            lemma_pow2_agrees(20);
            vstd::arithmetic::power2::lemma2_to64();
            if e > 20 {
                vstd::arithmetic::power2::lemma_pow2_strictly_increases(20, e as nat);
            }
            assert(p >= 1048576);
            assert(false);
        }
        assert((e as int) * (p as int) <= 19 * 1000000) by (nonlinear_arith)
            requires
                0 <= e as int <= 19,
                0 <= p as int <= 1000000,
        ;
    }
    let num: u128 = 693u128 * ((e as u128) * (p as u128) + (recip as u128) - (p as u128));
    let ln_milli: u128 = num / (p as u128);
    proof {
        assert((num as int) / (p as int) <= num as int) by (nonlinear_arith)
            requires
                (p as int) >= 1,
                (num as int) >= 0,
        ;
        assert(ln_milli == spec_ln_milli(recip as int));
        assert((num_items as int) * (ln_milli as int) <= 0xffffffffffffffff * 0x400000000)
            by (nonlinear_arith)
            requires
                0 <= num_items as int <= 0xffffffffffffffff,
                0 <= ln_milli as int <= 0x400000000,
        ;
    }
    let prod: u128 = (num_items as u128) * ln_milli;
    let bits: u128 = (prod * 1000u128 + 480452u128) / 480453u128;
    if bits < 1 {
        1
    } else if bits > usize::MAX as u128 {
        usize::MAX
    } else {
        bits as usize
    }
}

/// `clamp(round(num_bits / num_items * ln 2), 2, 200)` evaluated in
/// fixed point; 200 when there are no items.
pub open spec fn spec_optimal_num_hashes(num_bits: int, num_items: int) -> int {
    if num_items <= 0 {
        200
    } else {
        let k: int = (2 * num_bits * 693147 + num_items * 1000000) / (2 * num_items * 1000000);
        if k < 2 {
            2
        } else if k > 200 {
            200
        } else {
            k
        }
    }
}

/// The optimal number of hash functions for the given number of bits
/// and items in a filter.
pub fn optimal_num_hashes(num_bits: usize, num_items: usize) -> (r: usize)
    ensures
        r == spec_optimal_num_hashes(num_bits as int, num_items as int),
        2 <= r <= 200,
{
    if num_items == 0 {
        return 200;
    }
    let k: u128 = (2u128 * (num_bits as u128) * 693147u128 + (num_items as u128) * 1000000u128)
        / (2u128 * (num_items as u128) * 1000000u128);
    if k < 2 {
        2
    } else if k > 200 {
        200
    } else {
        k as usize
    }
}

/// The bit at position `j`, as the integer 0 or 1.
pub open spec fn spec_bit(bits: Seq<bool>, j: int) -> u8 {
    if 0 <= j < bits.len() && bits[j] {
        1
    } else {
        0
    }
}

/// The byte packing bits `8 i .. 8 i + 8`, least significant first.
pub open spec fn spec_packed_byte(bits: Seq<bool>, i: int) -> u8 {
    (spec_bit(bits, 8 * i) + 2 * spec_bit(bits, 8 * i + 1) + 4 * spec_bit(bits, 8 * i + 2) + 8
        * spec_bit(bits, 8 * i + 3) + 16 * spec_bit(bits, 8 * i + 4) + 32 * spec_bit(
        bits,
        8 * i + 5,
    ) + 64 * spec_bit(bits, 8 * i + 6) + 128 * spec_bit(bits, 8 * i + 7)) as u8
}

/// The bit vector packed into bytes, eight bits per byte.
pub open spec fn spec_packed_bits(bits: Seq<bool>) -> Seq<u8> {
    Seq::new(((bits.len() + 7) / 8) as nat, |i: int| spec_packed_byte(bits, i))
}

/// One seed set as bytes: its four seeds, little endian.
pub closed spec fn spec_seed_bytes(s: Seeds) -> Seq<u8> {
    spec_u64_to_le_bytes(s.k1) + spec_u64_to_le_bytes(s.k2) + spec_u64_to_le_bytes(s.k3)
        + spec_u64_to_le_bytes(s.k4)
}

/// All seed sets as bytes, in order.
pub open spec fn spec_seeds_bytes(seeds: Seq<Seeds>) -> Seq<u8>
    decreases seeds.len(),
{
    if seeds.len() == 0 {
        Seq::empty()
    } else {
        spec_seed_bytes(seeds[0]) + spec_seeds_bytes(seeds.drop_first())
    }
}

proof fn lemma_seeds_bytes_push(seeds: Seq<Seeds>, s: Seeds)
    ensures
        spec_seeds_bytes(seeds.push(s)) == spec_seeds_bytes(seeds) + spec_seed_bytes(s),
    decreases seeds.len(),
{
    if seeds.len() == 0 {
        assert(seeds.push(s)[0] == s);
        assert(seeds.push(s).drop_first() =~= Seq::<Seeds>::empty());
        assert(spec_seeds_bytes(seeds.push(s)) == spec_seed_bytes(s) + spec_seeds_bytes(
            Seq::<Seeds>::empty(),
        ));
        assert(spec_seeds_bytes(Seq::<Seeds>::empty()) == Seq::<u8>::empty());
        assert(spec_seed_bytes(s) + Seq::<u8>::empty() =~= spec_seed_bytes(s));
        assert(spec_seeds_bytes(seeds) + spec_seed_bytes(s) =~= spec_seed_bytes(s));
    } else {
        lemma_seeds_bytes_push(seeds.drop_first(), s);
        assert(seeds.push(s)[0] == seeds[0]);
        assert(seeds.push(s).drop_first() =~= seeds.drop_first().push(s));
        assert(spec_seeds_bytes(seeds.push(s)) =~= spec_seeds_bytes(seeds) + spec_seed_bytes(s));
    }
}

impl BloomFilter {
    /// The filter's serialized form, as stored in a run's trailer: the
    /// hash count, the seed sets, and the length-prefixed packed bits.
    pub closed spec fn spec_serialized(&self) -> Seq<u8> {
        spec_u64_to_le_bytes(self.num_hashes as u64) + spec_u64_to_le_bytes(
            self.seeds@.len() as u64,
        ) + spec_seeds_bytes(self.seeds@) + spec_u64_to_le_bytes(
            bit_vec_model(self.bits).len() as u64,
        ) + spec_packed_bits(bit_vec_model(self.bits))
    }

    /// The bit at the (possibly out-of-range) position, as 0 or 1.
    fn bit01(&self, idx_wide: u64) -> (r: u8)
        requires
            self.inv(),
        ensures
            r == spec_bit(bit_vec_model(self.bits), idx_wide as int),
    {
        let nbits = bitvec_len(&self.bits);
        if idx_wide >= nbits as u64 {
            0
        } else {
            match bitvec_get(&self.bits, idx_wide as usize) {
                Some(true) => 1,
                _ => 0,
            }
        }
    }

    /// Appends the filter's serialized form to `out`.
    pub fn serialize_into(&self, out: &mut Vec<u8>)
        requires
            self.inv(),
        ensures
            final(out)@ == old(out)@ + self.spec_serialized(),
    {
        let ghost base = out@;
        let hashes_bytes = u64_to_le_bytes(self.num_hashes as u64);
        crate::codec::append_bytes(out, &hashes_bytes);
        let count_bytes = u64_to_le_bytes(self.seeds.len() as u64);
        crate::codec::append_bytes(out, &count_bytes);
        let ghost head = base + spec_u64_to_le_bytes(self.num_hashes as u64)
            + spec_u64_to_le_bytes(self.seeds@.len() as u64);
        let mut i: usize = 0;
        proof {
            assert(self.seeds@.take(0) =~= Seq::<Seeds>::empty());
            assert(spec_seeds_bytes(self.seeds@.take(0)) =~= Seq::<u8>::empty());
            assert(out@ =~= head + spec_seeds_bytes(self.seeds@.take(0)));
        }
        while i < self.seeds.len()
            invariant
                self.inv(),
                i <= self.seeds@.len(),
                out@ == head + spec_seeds_bytes(self.seeds@.take(i as int)),
            decreases self.seeds@.len() - i,
        {
            let s = &self.seeds[i];
            let k1b = u64_to_le_bytes(s.k1);
            crate::codec::append_bytes(out, &k1b);
            let k2b = u64_to_le_bytes(s.k2);
            crate::codec::append_bytes(out, &k2b);
            let k3b = u64_to_le_bytes(s.k3);
            crate::codec::append_bytes(out, &k3b);
            let k4b = u64_to_le_bytes(s.k4);
            crate::codec::append_bytes(out, &k4b);
            i = i + 1;
            proof {
                lemma_seeds_bytes_push(self.seeds@.take(i - 1), self.seeds@[i - 1]);
                assert(self.seeds@.take(i as int) =~= self.seeds@.take(i - 1).push(
                    self.seeds@[i - 1],
                ));
                assert(out@ =~= head + spec_seeds_bytes(self.seeds@.take(i as int)));
            }
        }
        proof {
            assert(self.seeds@.take(self.seeds@.len() as int) =~= self.seeds@);
        }
        let nbits = bitvec_len(&self.bits);
        let nbits_bytes = u64_to_le_bytes(nbits as u64);
        crate::codec::append_bytes(out, &nbits_bytes);
        let ghost bits = bit_vec_model(self.bits);
        let ghost mid = out@;
        let num_bytes = nbits / 8 + if nbits % 8 == 0 {
            0
        } else {
            1
        };
        proof {
            assert(num_bytes == spec_packed_bits(bits).len());
            assert(spec_packed_bits(bits).take(0) =~= Seq::<u8>::empty());
            assert(out@ =~= mid + spec_packed_bits(bits).take(0));
        }
        let mut bi: usize = 0;
        while bi < num_bytes
            invariant
                self.inv(),
                bi <= num_bytes,
                nbits == bits.len(),
                bits == bit_vec_model(self.bits),
                num_bytes == spec_packed_bits(bits).len(),
                out@ == mid + spec_packed_bits(bits).take(bi as int),
            decreases num_bytes - bi,
        {
            let base_idx: u64 = (bi as u64) * 8;
            let b0 = self.bit01(base_idx);
            let b1 = self.bit01(base_idx + 1);
            let b2 = self.bit01(base_idx + 2);
            let b3 = self.bit01(base_idx + 3);
            let b4 = self.bit01(base_idx + 4);
            let b5 = self.bit01(base_idx + 5);
            let b6 = self.bit01(base_idx + 6);
            let b7 = self.bit01(base_idx + 7);
            let byte: u8 = b0 + 2 * b1 + 4 * b2 + 8 * b3 + 16 * b4 + 32 * b5 + 64 * b6 + 128
                * b7;
            proof {
                assert(byte == spec_packed_byte(bits, bi as int));
            }
            out.push(byte);
            bi = bi + 1;
            proof {
                assert(spec_packed_bits(bits).take(bi as int) =~= spec_packed_bits(bits).take(
                    bi - 1,
                ).push(spec_packed_byte(bits, bi - 1)));
                assert(out@ =~= mid + spec_packed_bits(bits).take(bi as int));
            }
        }
        proof {
            assert(spec_packed_bits(bits).take(spec_packed_bits(bits).len() as int)
                =~= spec_packed_bits(bits));
            assert(out@ =~= old(out)@ + self.spec_serialized());
        }
    }
}

} // verus!
