//! A seeded, reproducible stream of store requests for exercising the
//! engine: a configured number of puts, gets and deletes, with get keys
//! skewed towards previously seen keys and a configurable miss ratio.
//!
//! Skew and miss ratio are given in parts per million. Keys and value
//! bytes are drawn approximately normally, as the centered sum of
//! twelve uniform draws.

use vstd::prelude::*;

verus! {

#[verifier::external_type_specification]
#[verifier::external_body]
pub struct ExChaCha20Rng(rand_chacha::ChaCha20Rng);

/// A weighted choice over request kinds, backed by rand_distr's
/// `WeightedAliasIndex`, which Verus cannot see directly.
#[verifier::external_body]
pub struct OpDist {
    inner: rand_distr::WeightedAliasIndex<u32>,
}

/// The number of weights the weighted alias distribution was built
/// from.
pub uninterp spec fn alias_len(d: OpDist) -> int;

/// Relies on `ChaCha20Rng::from_seed`: a deterministic generator seeded
/// from the 32 bytes.
#[verifier::external_body]
fn chacha_from_seed(seed: [u8; 32]) -> rand_chacha::ChaCha20Rng {
    <rand_chacha::ChaCha20Rng as rand::SeedableRng>::from_seed(seed)
}

/// Relies on `Rng::gen_range`: a value drawn from the half-open range,
/// which panics when the range is empty, so it must not be.
#[verifier::external_body]
fn chacha_gen_range_u32(rng: &mut rand_chacha::ChaCha20Rng, lo: u32, hi: u32) -> (r: u32)
    requires
        lo < hi,
    ensures
        lo <= r < hi,
{
    rand::Rng::gen_range(rng, lo..hi)
}

/// Relies on `Rng::gen_range` over `i32` bounds; the range must not be
/// empty.
#[verifier::external_body]
fn chacha_gen_range_i32(rng: &mut rand_chacha::ChaCha20Rng, lo: i32, hi: i32) -> (r: i32)
    requires
        lo < hi,
    ensures
        lo <= r < hi,
{
    rand::Rng::gen_range(rng, lo..hi)
}

/// Relies on `Rng::gen_range` over `usize` bounds; the range must not
/// be empty.
#[verifier::external_body]
fn chacha_gen_range_usize(rng: &mut rand_chacha::ChaCha20Rng, lo: usize, hi: usize) -> (r: usize)
    requires
        lo < hi,
    ensures
        lo <= r < hi,
{
    rand::Rng::gen_range(rng, lo..hi)
}

/// The sum of a weight list, as an unbounded integer.
pub open spec fn spec_weight_sum(ws: Seq<u32>) -> int
    decreases ws.len(),
{
    if ws.len() == 0 {
        0
    } else {
        ws.first() + spec_weight_sum(ws.drop_first())
    }
}

/// Relies on `WeightedAliasIndex::new`: a distribution over as many
/// outcomes as there are weights, or a rejection of the weight list;
/// it accepts exactly the non-empty lists of at most `u32::MAX` weights
/// whose entries are each at most `u32::MAX / n` and whose sum is
/// positive.
#[verifier::external_body]
fn weighted_alias_new(weights: Vec<u32>) -> (r: Option<OpDist>)
    ensures
        r matches Some(d) ==> alias_len(d) == weights@.len(),
        (1 <= weights@.len() <= 0xffffffff && (forall|i: int|
            0 <= i < weights@.len() ==> (#[trigger] weights@[i]) as int <= 0xffffffff as int
                / weights@.len() as int) && spec_weight_sum(weights@) > 0) ==> r is Some,
{
    match rand_distr::WeightedAliasIndex::new(weights) {
        Ok(d) => Some(OpDist { inner: d }),
        Err(_e) => None,
    }
}

/// Relies on `Distribution::sample` for `WeightedAliasIndex`: the
/// drawn outcome indexes one of the weights.
#[verifier::external_body]
fn weighted_alias_sample(d: &OpDist, rng: &mut rand_chacha::ChaCha20Rng) -> (r: usize)
    requires
        alias_len(*d) >= 1,
    ensures
        0 <= r < alias_len(*d),
{
    rand_distr::Distribution::sample(&d.inner, rng)
}

/// Failures of workload construction.
#[derive(Debug)]
pub enum WorkloadGeneratorError {
    IoError,
    InvalidParameter(String),
    NotImplemented,
}

/// The kind of a generated request.
#[derive(Debug, Clone, Copy, PartialEq, Eq, Structural)]
pub enum RequestType {
    Get,
    Put,
    Delete,
}

/// One generated request: a key, a value for puts, and the kind.
#[derive(Debug, PartialEq)]
pub struct Request {
    pub key: i32,
    pub value: Option<Vec<u8>>,
    pub request_type: RequestType,
}

/// The shape of a workload: request counts, get-key skew and miss
/// ratio in parts per million, and the random seed.
pub struct WorkloadParameters {
    num_puts: u32,
    num_gets: u32,
    gets_skew_ppm: u32,
    gets_miss_ratio_ppm: u32,
    num_deletes: u32,
    num_ranges: u32,
    seed: [u8; 32],
}

impl WorkloadParameters {
    pub closed spec fn spec_num_puts(&self) -> u32 {
        self.num_puts
    }

    pub closed spec fn spec_num_gets(&self) -> u32 {
        self.num_gets
    }

    pub closed spec fn spec_num_deletes(&self) -> u32 {
        self.num_deletes
    }

    pub closed spec fn spec_num_ranges(&self) -> u32 {
        self.num_ranges
    }

    pub closed spec fn spec_gets_skew_ppm(&self) -> u32 {
        self.gets_skew_ppm
    }

    pub closed spec fn spec_gets_miss_ratio_ppm(&self) -> u32 {
        self.gets_miss_ratio_ppm
    }

    pub closed spec fn spec_seed(&self) -> Seq<u8> {
        self.seed@
    }

    /// Parameters are consistent when gets and deletes come with at
    /// least one put to draw keys from, and the ratios are rates.
    pub open spec fn wf(&self) -> bool {
        &&& (self.spec_num_puts() == 0 ==> self.spec_num_gets() == 0 && self.spec_num_deletes()
            == 0)
    }

    /// Checks and records the workload shape: gets or deletes without
    /// any put are rejected, as are ratios above one.
    pub fn new(
        num_puts: u32,
        num_gets: u32,
        num_deletes: u32,
        num_ranges: u32,
        gets_skew_ppm: u32,
        gets_miss_ratio_ppm: u32,
        seed: [u8; 32],
    ) -> (r: Result<WorkloadParameters, WorkloadGeneratorError>)
        ensures
            r is Ok <==> ((num_puts >= 1 || (num_gets == 0 && num_deletes == 0)) && gets_skew_ppm
                <= 1000000 && gets_miss_ratio_ppm <= 1000000),
            r matches Ok(p) ==> p.wf() && p.spec_num_puts() == num_puts && p.spec_num_gets()
                == num_gets && p.spec_num_deletes() == num_deletes && p.spec_num_ranges()
                == num_ranges && p.spec_gets_skew_ppm() == gets_skew_ppm
                && p.spec_gets_miss_ratio_ppm() == gets_miss_ratio_ppm && p.spec_seed() == seed@,
    {
        if num_puts == 0 && (num_gets > 0 || num_deletes > 0) {
            return Err(
                WorkloadGeneratorError::InvalidParameter("Must have > 0 puts".to_owned()),
            );
        }
        if gets_skew_ppm > 1000000 || gets_miss_ratio_ppm > 1000000 {
            return Err(
                WorkloadGeneratorError::InvalidParameter(
                    "skew and miss ratio are rates".to_owned(),
                ),
            );
        }
        Ok(
            WorkloadParameters {
                num_puts,
                num_gets,
                gets_skew_ppm,
                gets_miss_ratio_ppm,
                num_deletes,
                num_ranges,
                seed,
            },
        )
    }

    /// Builds the request generator for these parameters: a weighted
    /// choice over the three request kinds, driven by the seed.
    pub fn generator(self) -> (r: Result<WorkloadGenerator, WorkloadGeneratorError>)
        requires
            self.wf(),
        ensures
            r matches Ok(g) ==> g.inv() && g.spec_params() == self && g.spec_gets() == 0
                && g.spec_puts() == 0 && g.spec_deletes() == 0,
            (!(self.spec_num_gets() == 0 && self.spec_num_puts() == 0 && self.spec_num_deletes()
                == 0) && self.spec_num_gets() <= 1431655765 && self.spec_num_puts() <= 1431655765
                && self.spec_num_deletes() <= 1431655765) ==> r is Ok,
    {
        let mut weights: Vec<u32> = Vec::new();
        weights.push(self.num_gets);
        weights.push(self.num_puts);
        weights.push(self.num_deletes);
        proof {
            assert(weights@ =~= seq![self.num_gets, self.num_puts, self.num_deletes]);
            let w = seq![self.num_gets, self.num_puts, self.num_deletes];
            assert(w.first() == self.num_gets);
            assert(w.drop_first() =~= seq![self.num_puts, self.num_deletes]);
            assert(seq![self.num_puts, self.num_deletes].first() == self.num_puts);
            assert(seq![self.num_puts, self.num_deletes].drop_first() =~= seq![self.num_deletes]);
            assert(seq![self.num_deletes].first() == self.num_deletes);
            assert(seq![self.num_deletes].drop_first() =~= Seq::<u32>::empty());
            assert(spec_weight_sum(Seq::<u32>::empty()) == 0);
            assert(spec_weight_sum(seq![self.num_deletes]) == self.num_deletes);
            assert(spec_weight_sum(seq![self.num_puts, self.num_deletes]) == self.num_puts
                + self.num_deletes);
            assert(spec_weight_sum(w) == self.num_gets + self.num_puts + self.num_deletes);
            assert(0xffffffff as int / 3int == 1431655765);
        }
        let op_dist = match weighted_alias_new(weights) {
            Some(d) => d,
            None => {
                return Err(
                    WorkloadGeneratorError::InvalidParameter(
                        "workload needs at least one request".to_owned(),
                    ),
                );
            },
        };
        let rng = chacha_from_seed(self.seed);
        let mut ops: Vec<RequestType> = Vec::new();
        ops.push(RequestType::Get);
        ops.push(RequestType::Put);
        ops.push(RequestType::Delete);
        Ok(
            WorkloadGenerator {
                params: self,
                current_gets: 0,
                current_puts: 0,
                current_deletes: 0,
                current_ranges: 0,
                old_puts: Vec::new(),
                old_gets: Vec::new(),
                old_puts_max_size: 0,
                old_gets_max_size: 0,
                rng,
                op_dist,
                ops,
            },
        )
    }
}

/// The request stream: tracks how many of each kind were produced and
/// the keys seen so far, so gets and deletes can reuse them.
pub struct WorkloadGenerator {
    params: WorkloadParameters,
    current_gets: u32,
    current_puts: u32,
    current_deletes: u32,
    current_ranges: u32,
    old_puts: Vec<i32>,
    old_gets: Vec<i32>,
    old_puts_max_size: usize,
    old_gets_max_size: usize,
    rng: rand_chacha::ChaCha20Rng,
    op_dist: OpDist,
    ops: Vec<RequestType>,
}

impl WorkloadGenerator {
    pub closed spec fn spec_params(&self) -> WorkloadParameters {
        self.params
    }

    pub closed spec fn spec_gets(&self) -> u32 {
        self.current_gets
    }

    pub closed spec fn spec_puts(&self) -> u32 {
        self.current_puts
    }

    pub closed spec fn spec_deletes(&self) -> u32 {
        self.current_deletes
    }

    /// The generator can always pick a key for a get or delete once a
    /// put has happened, and the op table covers the three kinds.
    pub closed spec fn inv(&self) -> bool {
        &&& self.params.wf()
        &&& self.ops@.len() == 3
        &&& alias_len(self.op_dist) == 3
        &&& (self.current_puts >= 1 ==> self.old_puts@.len() >= 1)
        &&& self.old_puts_max_size == 0
        &&& self.old_gets_max_size == 0
    }

    /// Draws a request kind from the weighted distribution.
    pub fn sample_op(&mut self) -> (r: RequestType)
        requires
            old(self).inv(),
        ensures
            final(self).inv(),
            final(self).spec_params() == old(self).spec_params(),
            final(self).spec_gets() == old(self).spec_gets(),
            final(self).spec_puts() == old(self).spec_puts(),
            final(self).spec_deletes() == old(self).spec_deletes(),
    {
        let idx = weighted_alias_sample(&self.op_dist, &mut self.rng);
        self.ops[idx]
    }

    /// The next request, or `None` once every configured request has
    /// been produced. A get or delete never comes before the first put,
    /// and each kind stops at its configured count; when the sampled
    /// kind is exhausted or not yet allowed, the first still-open kind
    /// stands in for it.
    pub fn next(&mut self) -> (r: Option<Request>)
        requires
            old(self).inv(),
        ensures
            final(self).inv(),
            final(self).spec_params() == old(self).spec_params(),
            r is None <==> (old(self).spec_gets() >= old(self).spec_params().spec_num_gets()
                && old(self).spec_puts() >= old(self).spec_params().spec_num_puts()
                && old(self).spec_deletes() >= old(self).spec_params().spec_num_deletes()),
            r is None ==> final(self).spec_gets() == old(self).spec_gets()
                && final(self).spec_puts() == old(self).spec_puts()
                && final(self).spec_deletes() == old(self).spec_deletes(),
            r matches Some(req) ==> match req.request_type {
                RequestType::Get => old(self).spec_gets() < old(self).spec_params().spec_num_gets()
                    && old(self).spec_puts() >= 1
                    && final(self).spec_gets() == old(self).spec_gets() + 1
                    && final(self).spec_puts() == old(self).spec_puts()
                    && final(self).spec_deletes() == old(self).spec_deletes(),
                RequestType::Put => old(self).spec_puts() < old(self).spec_params().spec_num_puts()
                    && final(self).spec_puts() == old(self).spec_puts() + 1
                    && final(self).spec_gets() == old(self).spec_gets()
                    && final(self).spec_deletes() == old(self).spec_deletes()
                    && (req.value matches Some(v) && v@.len() == 16),
                RequestType::Delete => old(self).spec_deletes()
                    < old(self).spec_params().spec_num_deletes() && old(self).spec_puts() >= 1
                    && final(self).spec_deletes() == old(self).spec_deletes() + 1
                    && final(self).spec_gets() == old(self).spec_gets()
                    && final(self).spec_puts() == old(self).spec_puts(),
            },
    {
        let sampled = self.sample_op();
        if (self.current_gets >= self.params.num_gets && self.current_puts
            >= self.params.num_puts && self.current_deletes >= self.params.num_deletes) || (
        self.params.num_puts == 0 && self.params.num_gets > 0) {
            return None;
        }
        let gets_ok = self.current_gets < self.params.num_gets && self.current_puts > 0;
        let puts_ok = self.current_puts < self.params.num_puts;
        let deletes_ok = self.current_deletes < self.params.num_deletes && self.current_puts > 0;
        let sampled_ok = match sampled {
            RequestType::Get => gets_ok,
            RequestType::Put => puts_ok,
            RequestType::Delete => deletes_ok,
        };
        let op = if sampled_ok {
            sampled
        } else if puts_ok {
            RequestType::Put
        } else if gets_ok {
            RequestType::Get
        } else {
            RequestType::Delete
        };
        proof {
            if !puts_ok && !gets_ok && !deletes_ok {
                assert(false);
            }
        }
        match op {
            RequestType::Get => {
                let key: i32;
                let fresh = chacha_gen_range_u32(&mut self.rng, 0, 1000000)
                    >= self.params.gets_skew_ppm || self.old_gets.len() == 0;
                if fresh {
                    if chacha_gen_range_u32(&mut self.rng, 0, 1000000)
                        >= self.params.gets_miss_ratio_ppm {
                        let idx = chacha_gen_range_usize(&mut self.rng, 0, self.old_puts.len());
                        key = self.old_puts[idx];
                    } else {
                        key = generate_normal_int_key(&mut self.rng);
                    }
                    if self.old_gets_max_size > self.old_gets.len() {
                        let idx = chacha_gen_range_usize(&mut self.rng, 0, self.old_gets.len());
                        let _replaced = self.old_gets.remove(idx);
                        self.old_gets.insert(idx, key);
                    } else {
                        self.old_gets.push(key);
                    }
                } else {
                    let idx = chacha_gen_range_usize(&mut self.rng, 0, self.old_gets.len());
                    key = self.old_gets[idx];
                }
                self.current_gets = self.current_gets + 1;
                Some(Request { key, value: None, request_type: RequestType::Get })
            },
            RequestType::Put => {
                let key = generate_normal_int_key(&mut self.rng);
                let value = generate_normal_bytes(&mut self.rng, 16);
                self.current_puts = self.current_puts + 1;
                if self.old_puts_max_size > self.old_puts.len() {
                    let idx = chacha_gen_range_usize(&mut self.rng, 0, self.old_puts.len());
                    let _replaced = self.old_puts.remove(idx);
                    self.old_puts.insert(idx, key);
                } else {
                    self.old_puts.push(key);
                }
                Some(Request { key, value: Some(value), request_type: RequestType::Put })
            },
            RequestType::Delete => {
                proof {
                    assert(deletes_ok);
                    assert(self.old_puts@.len() >= 1);
                }
                let idx = chacha_gen_range_usize(&mut self.rng, 0, self.old_puts.len());
                let key = self.old_puts[idx];
                self.current_deletes = self.current_deletes + 1;
                Some(Request { key, value: None, request_type: RequestType::Delete })
            },
        }
    }
}

/// An approximately normal key, centered at zero with a standard
/// deviation near a third of the key range: the centered sum of twelve
/// uniform draws, scaled down and clamped to the key range.
fn generate_normal_int_key(rng: &mut rand_chacha::ChaCha20Rng) -> i32 {
    let mut sum: i64 = 0;
    let mut i: usize = 0;
    while i < 12
        invariant
            i <= 12,
            0 <= sum <= i * 0xffffffff,
        decreases 12 - i,
    {
        let d = chacha_gen_range_u32(rng, 0, 0xffffffff);
        sum = sum + d as i64;
        i = i + 1;
    }
    let centered: i64 = sum - 6 * 0xffffffff;
    let scaled: i64 = centered / 6;
    if scaled < -0x80000000i64 {
        i32::MIN
    } else if scaled > 0x7fffffffi64 {
        i32::MAX
    } else {
        scaled as i32
    }
}

/// An approximately normal byte, centered at zero with a standard
/// deviation near a third of the byte range; negative draws clamp to
/// zero.
fn generate_normal_byte(rng: &mut rand_chacha::ChaCha20Rng) -> u8 {
    let mut sum: i32 = 0;
    let mut i: usize = 0;
    while i < 12
        invariant
            i <= 12,
            0 <= sum <= i * 255,
        decreases 12 - i,
    {
        let d = chacha_gen_range_u32(rng, 0, 255);
        sum = sum + d as i32;
        i = i + 1;
    }
    let centered: i32 = (sum - 6 * 255) / 3;
    if centered < 0 {
        0
    } else if centered > 255 {
        255
    } else {
        centered as u8
    }
}

/// A fixed-length sequence of approximately normal random bytes.
fn generate_normal_bytes(rng: &mut rand_chacha::ChaCha20Rng, num_bytes: usize) -> (r: Vec<u8>)
    ensures
        r@.len() == num_bytes,
{
    let mut out: Vec<u8> = Vec::new();
    let mut i: usize = 0;
    while i < num_bytes
        invariant
            i <= num_bytes,
            out@.len() == i,
        decreases num_bytes - i,
    {
        out.push(generate_normal_byte(rng));
        i = i + 1;
    }
    out
}

/// A uniformly random key over the full key range.
#[allow(dead_code)]
fn generate_uniform_int_key(rng: &mut rand_chacha::ChaCha20Rng) -> i32 {
    chacha_gen_range_i32(rng, i32::MIN, i32::MAX)
}

} // verus!
