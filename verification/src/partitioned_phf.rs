//! A partitioned perfect hash function: keys are split by fingerprint into
//! independent sub-functions, each built on its own table, and composed by
//! per-partition offsets whose ranges tile the output interval.
use vstd::prelude::*;
use core::marker::PhantomData;
use crate::encoders::{Encoder, MAX_PILOTS};
use crate::hashing::{Fingerprint, Hashable, Hasher};
use crate::minimality::Minimality;
use crate::table::{build_table, built_ok, compute_params, covers, spec_params_reject,
    spec_table_len, PhfTable};
use crate::utils::{clock_now, elapsed_nanos, random_seed};
use crate::{spec_valid_seed, valid_seed, BuildConfiguration, BuildError, BuildTimings};

verus! {

/// The partition a fingerprint belongs to: a pure function of the
/// fingerprint's first half and the partition count.
pub open spec fn spec_partition_of(h: u64, num_partitions: u64) -> u64 {
    if num_partitions == 0 {
        0
    } else {
        h % num_partitions
    }
}

/// Computes [`spec_partition_of`]; always below `num_partitions`.
pub fn partition_of(h: u64, num_partitions: u64) -> (r: u64)
    requires
        num_partitions >= 1,
    ensures
        r == spec_partition_of(h, num_partitions),
        r < num_partitions,
{
    h % num_partitions
}

/// The width of the output window of one sub-function.
pub open spec fn part_width<E: Encoder>(t: PhfTable<E>) -> u64 {
    if t.minimal {
        t.num_keys
    } else {
        t.table_size
    }
}

/// Total length of the first `k` inner lists.
pub open spec fn sum_lens(lists: Seq<Seq<Fingerprint>>, k: int) -> int
    decreases k,
{
    if k <= 0 {
        0
    } else {
        sum_lens(lists, k - 1) + lists[k - 1].len()
    }
}

/// Largest sum of partition window widths the builder accepts.
pub const MAX_TOTAL_WIDTH: u64 = 0xffff_ffff_fffe_0000;

/// The fingerprints of a key list under one seed.
pub open spec fn spec_fps_of<H: Hasher>(keys: Seq<Vec<u8>>, seed: u64) -> Seq<Fingerprint> {
    Seq::new(keys.len(), |i: int| H::spec_fingerprint(keys[i]@, seed))
}

/// How many of the first `k` fingerprints fall into partition `p`.
pub open spec fn part_count(fps: Seq<Fingerprint>, np: u64, p: int, k: int) -> int
    decreases k,
{
    if k <= 0 {
        0
    } else {
        part_count(fps, np, p, k - 1) + (if spec_partition_of(fps[k - 1].first, np) as int == p {
            1int
        } else {
            0int
        })
    }
}

/// The output window width of a partition holding `cnt` keys.
pub open spec fn spec_part_width_of(cnt: int, alpha_milli: u64, minimal: bool) -> int {
    if minimal {
        cnt
    } else {
        spec_table_len(cnt as u64, alpha_milli)
    }
}

/// Total window width of the partitions before `p`.
pub open spec fn spec_width_prefix(fps: Seq<Fingerprint>, config: BuildConfiguration,
    minimal: bool, p: int) -> int
    decreases p,
{
    if p <= 0 {
        0
    } else {
        spec_width_prefix(fps, config, minimal, p - 1) + spec_part_width_of(
            part_count(fps, config.num_partitions, p - 1, fps.len() as int), config.alpha_milli,
            minimal)
    }
}

/// The partition stage rejects these fingerprints: some partition is
/// empty, some partition's derived geometry exceeds the machine bounds,
/// or the summed window widths overflow the offset space.
pub open spec fn spec_partition_reject(fps: Seq<Fingerprint>, config: BuildConfiguration,
    minimal: bool) -> bool {
    let np = config.num_partitions;
    let n = fps.len() as int;
    ||| exists|p: int| 0 <= p < np && #[trigger] part_count(fps, np, p, n) == 0
    ||| exists|p: int|
        0 <= p < np && spec_params_reject((#[trigger] part_count(fps, np, p, n)) as u64,
            config.c_milli, config.alpha_milli, 0)
    ||| exists|p: int|
        0 <= p < np && spec_width_prefix(fps, config, minimal, p) > MAX_TOTAL_WIDTH
            - spec_part_width_of(#[trigger] part_count(fps, np, p, n), config.alpha_milli,
            minimal)
}

/// The checks run before any hashing: configuration validity, a
/// non-empty key set, an agreeing minimality flag, and partition and key
/// counts this machine can index.
pub open spec fn spec_part_precheck(keys: Seq<Vec<u8>>, config: BuildConfiguration,
    minimal: bool) -> bool {
    ||| !config.spec_valid()
    ||| keys.len() == 0
    ||| config.minimal_output != minimal
    ||| keys.len() == usize::MAX
    ||| config.num_partitions > usize::MAX
    ||| config.num_partitions > 0x1_0000_0000_0000
}

/// The inputs on which a partitioned build under `seed` returns
/// `InvalidConfiguration`: a failed precheck, or a failed partition
/// stage over the fingerprints that seed produces.
pub open spec fn spec_part_rejected<H: Hasher>(keys: Seq<Vec<u8>>, config: BuildConfiguration,
    minimal: bool, seed: u64) -> bool {
    ||| spec_part_precheck(keys, config, minimal)
    ||| spec_partition_reject(spec_fps_of::<H>(keys, seed), config, minimal)
}

/// Size in bits of one persisted sub-function — its encoded pilots, its
/// free-slot map, and five geometry words — clamped at `u64::MAX`.
pub open spec fn spec_part_bits<E: Encoder>(t: PhfTable<E>) -> int {
    let exact = t.encoder.space_bits() + 64 * t.free_slots@.len() + 320;
    if exact <= u64::MAX {
        exact
    } else {
        u64::MAX as int
    }
}

/// Clamped total size in bits of the first `k` persisted sub-functions.
pub open spec fn spec_parts_bits<E: Encoder>(parts: Seq<PhfTable<E>>, k: int) -> int
    decreases k,
{
    if k <= 0 {
        0
    } else {
        let acc = spec_parts_bits(parts, k - 1);
        let step = spec_part_bits(parts[k - 1]);
        if acc + step <= u64::MAX {
            acc + step
        } else {
            u64::MAX as int
        }
    }
}

/// A partitioned perfect hash function over a fixed key set.
pub struct PartitionedPhf<M: Minimality, H: Hasher, E: Encoder> {
    /// One sub-function per partition.
    pub parts: Vec<PhfTable<E>>,
    /// The start of each partition's output window.
    pub offsets: Vec<u64>,
    /// Number of partitions.
    pub num_partitions: u64,
    /// The seed keys are hashed with; fixed before partitioning.
    pub seed: u64,
    /// Number of keys the function was built from.
    pub num_keys: u64,
    /// End of the last output window; every value lies below it.
    pub table_size: u64,
    /// Whether the output range is exactly `[0, num_keys)`.
    pub minimal: bool,
    /// Carries the minimality marker and the hasher choice.
    pub _marker: PhantomData<(M, H)>,
}

impl<M: Minimality, H: Hasher, E: Encoder> PartitionedPhf<M, H, E> {
    /// Consistency: every sub-function is well-formed with the same
    /// minimality, and the offsets chain the windows without gaps.
    pub open spec fn wf(&self) -> bool {
        &&& 1 <= self.num_partitions
        &&& self.num_partitions <= usize::MAX
        &&& self.parts@.len() == self.num_partitions
        &&& self.offsets@.len() == self.num_partitions
        &&& forall|p: int|
            0 <= p < self.num_partitions ==> (#[trigger] self.parts@[p]).wf()
                && self.parts@[p].minimal == self.minimal
        &&& self.offsets@[0] == 0
        &&& forall|p: int|
            1 <= p < self.num_partitions ==> #[trigger] self.offsets@[p] == self.offsets@[p - 1]
                + part_width(self.parts@[p - 1])
        &&& self.table_size == self.offsets@[self.num_partitions - 1] + part_width(
            self.parts@[self.num_partitions - 1])
        &&& (self.minimal ==> self.num_keys == self.table_size)
        &&& self.num_keys <= self.table_size
    }

    /// The position of a fingerprint: its partition's offset plus the
    /// sub-function's position.
    pub open spec fn spec_position(&self, fp: Fingerprint) -> u64 {
        let p = spec_partition_of(fp.first, self.num_partitions) as int;
        (self.offsets@[p] + self.parts@[p].spec_position(fp)) as u64
    }

    /// The position of a key given by its byte representation.
    pub open spec fn spec_eval(&self, bytes: Seq<u8>) -> u64 {
        self.spec_position(H::spec_fingerprint(bytes, self.seed))
    }

    /// What persistence relies on beyond well-formedness: bounded pilots,
    /// bucket counts this machine can rebuild, and a table within the
    /// offset space.  Every function the builder or the loader produces
    /// satisfies it.
    pub open spec fn saveable(&self) -> bool {
        &&& self.wf()
        &&& self.table_size <= MAX_TOTAL_WIDTH
        &&& forall|q: int|
            0 <= q < self.num_partitions ==> {
                &&& (#[trigger] self.parts@[q]).num_buckets <= crate::encoders::MAX_PILOTS
                &&& 64 * self.parts@[q].num_buckets <= usize::MAX
                &&& forall|b: int|
                    0 <= b < self.parts@[q].num_buckets
                        ==> #[trigger] self.parts@[q].encoder.pilots()[b]
                        <= crate::search::PILOT_LIMIT
            }
    }

    /// An empty function: one trivial partition.
    pub fn new() -> (r: Self)
        ensures
            r.wf(),
            r.num_keys == 0,
            r.seed == 0,
            !r.minimal,
    {
        let mut trivial: Vec<u64> = Vec::new();
        trivial.push(0);
        let encoder = E::encode(&trivial);
        let part = PhfTable {
            num_keys: 0,
            table_size: 1,
            num_buckets: 1,
            encoder,
            free_slots: Vec::new(),
            minimal: false,
        };
        let mut parts: Vec<PhfTable<E>> = Vec::new();
        parts.push(part);
        let mut offsets: Vec<u64> = Vec::new();
        offsets.push(0);
        PartitionedPhf {
            parts,
            offsets,
            num_partitions: 1,
            seed: 0,
            num_keys: 0,
            table_size: 1,
            minimal: false,
            _marker: PhantomData,
        }
    }

    /// Every window ends within the table.
    pub proof fn lemma_window_bound(&self, p: int)
        requires
            self.wf(),
            0 <= p < self.num_partitions,
        ensures
            self.offsets@[p] + part_width(self.parts@[p]) <= self.table_size,
            self.offsets@[p] <= self.table_size,
        decreases self.num_partitions - p,
    {
        if p == self.num_partitions - 1 {
        } else {
            self.lemma_window_bound(p + 1);
            assert(self.offsets@[p + 1] == self.offsets@[p] + part_width(self.parts@[p]));
        }
    }

    /// Every value below the table size falls into exactly one window.
    pub proof fn lemma_locate(&self, v: int, p: int)
        requires
            self.wf(),
            0 <= p < self.num_partitions,
            self.offsets@[p] <= v < self.table_size,
        ensures
            exists|q: int|
                p <= q < self.num_partitions && #[trigger] self.offsets@[q] <= v
                    && v < self.offsets@[q] + part_width(self.parts@[q]),
        decreases self.num_partitions - p,
    {
        if v < self.offsets@[p] + part_width(self.parts@[p]) {
            assert(self.offsets@[p] <= v && v < self.offsets@[p] + part_width(self.parts@[p]));
        } else {
            assert(p < self.num_partitions - 1) by {
                if p == self.num_partitions - 1 {
                    assert(v < self.offsets@[p] + part_width(self.parts@[p]));
                }
            }
            assert(self.offsets@[p + 1] == self.offsets@[p] + part_width(self.parts@[p]));
            self.lemma_locate(v, p + 1);
        }
    }

    /// The position of `key`; always inside the declared range.
    pub fn hash<K: Hashable>(&self, key: &K) -> (r: u64)
        requires
            self.wf(),
        ensures
            r == self.spec_eval(key.key_bytes()),
            r < self.table_size,
            self.minimal ==> r < self.num_keys,
    {
        let bytes = key.as_bytes();
        let fp = H::hash(&bytes, self.seed);
        let p = partition_of(fp.first, self.num_partitions) as usize;
        proof {
            self.lemma_window_bound(p as int);
        }
        let sub = self.parts[p].position(fp);
        proof {
            if self.minimal {
                assert(sub < self.parts@[p as int].num_keys);
            }
        }
        self.offsets[p] + sub
    }

    /// Number of keys the function was built from.
    pub fn num_keys(&self) -> (r: u64)
        ensures
            r == self.num_keys,
    {
        self.num_keys
    }

    /// The end of the last partition's output window; at least the key
    /// count.  Values of [`Self::hash`] lie below it (and below
    /// `num_keys` when the function is minimal).
    pub fn table_size(&self) -> (r: u64)
        ensures
            r == self.table_size,
    {
        self.table_size
    }

    /// The seed keys are hashed with.
    pub fn seed(&self) -> (r: u64)
        ensures
            r == self.seed,
    {
        self.seed
    }

    /// Size in bits of the parts a save would persist, clamped at
    /// `u64::MAX`: the clamped sum over partitions of each one's encoded
    /// pilots, free-slot map, and geometry words.
    pub fn num_bits(&self) -> (r: u64)
        requires
            self.wf(),
        ensures
            r as int == spec_parts_bits(self.parts@, self.parts@.len() as int),
    {
        let mut acc: u64 = 0;
        let mut p: usize = 0;
        let np = self.parts.len();
        while p < np
            invariant
                p <= np,
                np == self.parts@.len(),
                forall|q: int| 0 <= q < np ==> (#[trigger] self.parts@[q]).wf(),
                acc as int == spec_parts_bits(self.parts@, p as int),
            decreases np - p,
        {
            let eb = self.parts[p].encoder.num_bits();
            let fl = self.parts[p].free_slots.len();
            proof {
                assert(self.parts@[p as int].free_slots@.len() <= 0x1_0000_0000_0000);
                assert(64 * self.parts@[p as int].free_slots@.len() <= 64
                    * 0x1_0000_0000_0000) by (nonlinear_arith)
                    requires
                        self.parts@[p as int].free_slots@.len() <= 0x1_0000_0000_0000,
                ;
            }
            let extra = 64 * (fl as u64) + 320;
            let step = if eb > u64::MAX - extra {
                u64::MAX
            } else {
                eb + extra
            };
            acc = if acc > u64::MAX - step {
                u64::MAX
            } else {
                acc + step
            };
            p = p + 1;
        }
        acc
    }
}

/// Rejects the partition layout before any search: every partition must
/// be non-empty with machine-sized geometry, and the summed window widths
/// must fit the offset space.  Returns each partition's bucket count and
/// table length; fails exactly on [`spec_partition_reject`].
#[verifier::rlimit(100)]
#[verifier::loop_isolation(false)]
fn validate_partitions(lists: &Vec<Vec<Fingerprint>>, config: &BuildConfiguration, minimal: bool,
    Ghost(fps): Ghost<Seq<Fingerprint>>) -> (r: Result<Vec<(u64, u64)>, BuildError>)
    requires
        config.spec_valid(),
        1 <= config.num_partitions <= usize::MAX,
        lists@.len() == config.num_partitions,
        forall|q: int|
            0 <= q < config.num_partitions ==> (#[trigger] lists@[q])@.len() == part_count(fps,
                config.num_partitions, q, fps.len() as int),
        forall|q: int|
            0 <= q < config.num_partitions ==> (#[trigger] lists@[q])@.len()
                <= 0x1_0000_0000_0000,
    ensures
        r matches Ok(g) ==> {
            &&& g@.len() == config.num_partitions
            &&& !spec_partition_reject(fps, *config, minimal)
            &&& forall|q: int|
                0 <= q < config.num_partitions ==> {
                    &&& #[trigger] part_count(fps, config.num_partitions, q, fps.len() as int)
                        >= 1
                    &&& spec_width_prefix(fps, *config, minimal, q) <= MAX_TOTAL_WIDTH
                        - spec_part_width_of(part_count(fps, config.num_partitions, q,
                        fps.len() as int), config.alpha_milli, minimal)
                }
            &&& forall|q: int|
                0 <= q < config.num_partitions ==> {
                    &&& (#[trigger] g@[q]).0 == crate::table::spec_bucket_count(
                        part_count(fps, config.num_partitions, q, fps.len() as int) as u64,
                        config.c_milli, 0)
                    &&& g@[q].1 == spec_table_len(part_count(fps, config.num_partitions, q,
                        fps.len() as int) as u64, config.alpha_milli)
                    &&& 1 <= g@[q].0 <= crate::encoders::MAX_PILOTS
                    &&& g@[q].0 <= 0x1_0000_0000_0000
                    &&& 64 * g@[q].0 <= usize::MAX
                    &&& g@[q].0 <= usize::MAX
                    &&& 1 <= g@[q].1 <= 0x1_0000_0000_0000
                    &&& g@[q].1 <= usize::MAX
                    &&& part_count(fps, config.num_partitions, q, fps.len() as int) <= g@[q].1
                }
        },
        (r is Err) <==> spec_partition_reject(fps, *config, minimal),
        r matches Err(e) ==> e == BuildError::InvalidConfiguration,
{
    let np64 = config.num_partitions;
    let np = np64 as usize;
    let ghost n = fps.len() as int;
    let mut geoms: Vec<(u64, u64)> = Vec::new();
    let mut total_width: u64 = 0;
    let mut p: usize = 0;
    while p < np
        invariant
            p <= np,
            geoms@.len() == p,
            forall|q: int|
                0 <= q < p ==> {
                    &&& #[trigger] part_count(fps, np64, q, n) >= 1
                    &&& !spec_params_reject(part_count(fps, np64, q, n) as u64, config.c_milli,
                        config.alpha_milli, 0)
                    &&& spec_width_prefix(fps, *config, minimal, q) <= MAX_TOTAL_WIDTH
                        - spec_part_width_of(part_count(fps, np64, q, n), config.alpha_milli,
                        minimal)
                },
            forall|q: int|
                0 <= q < p ==> {
                    &&& (#[trigger] geoms@[q]).0 == crate::table::spec_bucket_count(
                        part_count(fps, np64, q, n) as u64, config.c_milli, 0)
                    &&& geoms@[q].1 == spec_table_len(part_count(fps, np64, q, n) as u64,
                        config.alpha_milli)
                    &&& 1 <= geoms@[q].0 <= crate::encoders::MAX_PILOTS
                    &&& geoms@[q].0 <= 0x1_0000_0000_0000
                    &&& 64 * geoms@[q].0 <= usize::MAX
                    &&& geoms@[q].0 <= usize::MAX
                    &&& 1 <= geoms@[q].1 <= 0x1_0000_0000_0000
                    &&& geoms@[q].1 <= usize::MAX
                    &&& part_count(fps, np64, q, n) <= geoms@[q].1
                },
            total_width == spec_width_prefix(fps, *config, minimal, p as int),
            total_width <= MAX_TOTAL_WIDTH,
        decreases np - p,
    {
        let len_p = lists[p].len();
        if len_p == 0 {
            return Err(BuildError::InvalidConfiguration);
        }
        let params = match compute_params(len_p as u64, config.c_milli, config.alpha_milli, 0) {
            Ok(pr) => pr,
            Err(e) => {
                return Err(e);
            },
        };
        let width = if minimal {
            len_p as u64
        } else {
            params.1
        };
        if total_width > MAX_TOTAL_WIDTH - width {
            return Err(BuildError::InvalidConfiguration);
        }
        total_width = total_width + width;
        geoms.push(params);
        p = p + 1;
    }
    Ok(geoms)
}

/// Builds every partition's table in order, chaining the offsets; only
/// the pilot search can fail.  Returns the tables, the offsets, the total
/// window width, and the number of keys built.
#[verifier::rlimit(100)]
#[verifier::loop_isolation(false)]
fn build_partitions<E: Encoder>(lists: &Vec<Vec<Fingerprint>>, geoms: &Vec<(u64, u64)>,
    config: &BuildConfiguration, minimal: bool, Ghost(fps): Ghost<Seq<Fingerprint>>) -> (r:
    Result<(Vec<PhfTable<E>>, Vec<u64>, u64, u64), BuildError>)
    requires
        1 <= config.num_partitions <= usize::MAX,
        lists@.len() == config.num_partitions,
        geoms@.len() == config.num_partitions,
        forall|q: int|
            0 <= q < config.num_partitions ==> (#[trigger] lists@[q])@.len() == part_count(fps,
                config.num_partitions, q, fps.len() as int),
        forall|q: int|
            0 <= q < config.num_partitions ==> (#[trigger] lists@[q])@.len()
                < usize::MAX && lists@[q]@.len() <= 0x1_0000_0000_0000,
        forall|q: int|
            0 <= q < config.num_partitions ==> {
                &&& #[trigger] part_count(fps, config.num_partitions, q, fps.len() as int) >= 1
                &&& spec_width_prefix(fps, *config, minimal, q) <= MAX_TOTAL_WIDTH
                    - spec_part_width_of(part_count(fps, config.num_partitions, q,
                    fps.len() as int), config.alpha_milli, minimal)
            },
        forall|q: int|
            0 <= q < config.num_partitions ==> {
                &&& 1 <= (#[trigger] geoms@[q]).0 <= crate::encoders::MAX_PILOTS
                &&& geoms@[q].0 <= 0x1_0000_0000_0000
                &&& 64 * geoms@[q].0 <= usize::MAX
                &&& geoms@[q].0 <= usize::MAX
                &&& 1 <= geoms@[q].1 <= 0x1_0000_0000_0000
                &&& geoms@[q].1 <= usize::MAX
                &&& geoms@[q].1 == spec_table_len(part_count(fps, config.num_partitions, q,
                    fps.len() as int) as u64, config.alpha_milli)
                &&& part_count(fps, config.num_partitions, q, fps.len() as int) <= geoms@[q].1
            },
    ensures
        r matches Ok(o) ==> {
            &&& o.0@.len() == config.num_partitions
            &&& o.1@.len() == config.num_partitions
            &&& forall|q: int|
                0 <= q < config.num_partitions ==> built_ok(#[trigger] o.0@[q], lists@[q]@,
                    o.0@[q].num_buckets, o.0@[q].table_size, minimal)
            &&& forall|q: int|
                0 <= q < config.num_partitions ==> (#[trigger] o.0@[q]).num_buckets
                    <= crate::encoders::MAX_PILOTS && 64 * o.0@[q].num_buckets <= usize::MAX
            &&& o.1@[0] == 0
            &&& forall|q: int|
                1 <= q < config.num_partitions ==> #[trigger] o.1@[q] == o.1@[q - 1] + part_width(
                    o.0@[q - 1])
            &&& o.2 == o.1@[config.num_partitions - 1] + part_width(
                o.0@[config.num_partitions - 1])
            &&& o.2 <= MAX_TOTAL_WIDTH
            &&& o.3 == sum_lens(lists@.map_values(|l: Vec<Fingerprint>| l@),
                config.num_partitions as int)
            &&& (minimal ==> o.3 == o.2)
            &&& o.3 <= o.2
        },
        r matches Err(e) ==> e == BuildError::SearchExhausted,
{
    let np64 = config.num_partitions;
    let np = np64 as usize;
    let ghost n = fps.len() as int;
    let mut parts: Vec<PhfTable<E>> = Vec::new();
    let mut offsets: Vec<u64> = Vec::new();
    let mut total: u64 = 0;
    let mut built_keys: u64 = 0;
    let mut p: usize = 0;
    while p < np
        invariant
            p <= np,
            parts@.len() == p,
            offsets@.len() == p,
            forall|q: int|
                0 <= q < p ==> built_ok(#[trigger] parts@[q], lists@[q]@, parts@[q].num_buckets,
                    parts@[q].table_size, minimal),
            forall|q: int|
                0 <= q < p ==> (#[trigger] parts@[q]).num_buckets <= crate::encoders::MAX_PILOTS
                    && 64 * parts@[q].num_buckets <= usize::MAX,
            p >= 1 ==> offsets@[0] == 0,
            forall|q: int|
                1 <= q < p ==> #[trigger] offsets@[q] == offsets@[q - 1] + part_width(
                    parts@[q - 1]),
            p >= 1 ==> total == offsets@[p - 1] + part_width(parts@[p - 1]),
            p == 0 ==> total == 0,
            total == spec_width_prefix(fps, *config, minimal, p as int),
            total <= MAX_TOTAL_WIDTH,
            built_keys == sum_lens(lists@.map_values(|l: Vec<Fingerprint>| l@), p as int),
            minimal ==> built_keys == total,
            built_keys <= total,
        decreases np - p,
    {
        let geom = geoms[p];
        let built = match build_table::<E>(&lists[p], geom.0, geom.1, minimal) {
            Ok(b) => b,
            Err(e) => {
                return Err(e);
            },
        };
        let t = built.0;
        let width = if minimal {
            t.num_keys
        } else {
            t.table_size
        };
        proof {
            assert(width == spec_part_width_of(part_count(fps, np64, p as int, n),
                config.alpha_milli, minimal));
            assert(spec_width_prefix(fps, *config, minimal, p as int) <= MAX_TOTAL_WIDTH
                - spec_part_width_of(part_count(fps, np64, p as int, n), config.alpha_milli,
                minimal));
        }
        offsets.push(total);
        let new_total = total + width;
        let new_built = built_keys + t.num_keys;
        parts.push(t);
        proof {
            assert(parts@[p as int] == t);
            assert(offsets@[p as int] == total);
        }
        total = new_total;
        built_keys = new_built;
        p = p + 1;
    }
    Ok((parts, offsets, total, built_keys))
}

/// Some key of `keys` evaluates exactly to position `v`.
pub open spec fn part_key_covers<M: Minimality, H: Hasher, E: Encoder>(s: PartitionedPhf<M, H, E>,
    keys: Seq<Vec<u8>>, v: int) -> bool {
    exists|i: int| 0 <= i < keys.len() && s.spec_eval(#[trigger] keys[i]@) == v
}

impl<M: Minimality, H: Hasher, E: Encoder> PartitionedPhf<M, H, E> {
    /// Builds the function: the seed is fixed before partitioning, the
    /// partitions are built independently, and a failure of any partition
    /// fails the whole build.  On success the function is injective over
    /// the keys and its values tile the declared range; a minimal function
    /// covers `[0, num_keys)` exactly.  An empty partition is rejected as
    /// `InvalidConfiguration` (the partition count is too large for the
    /// key set).
    #[verifier::rlimit(100)]
    #[verifier::loop_isolation(false)]
    pub fn build_in_internal_memory_from_bytes(&mut self, keys: &Vec<Vec<u8>>,
        config: &BuildConfiguration) -> (r: Result<BuildTimings, BuildError>)
        requires
            keys@.len() <= 0x1_0000_0000_0000,
        ensures
            r is Ok ==> {
                &&& final(self).wf()
                &&& final(self).saveable()
                &&& final(self).minimal == M::spec_minimal()
                &&& final(self).num_keys == keys@.len()
                &&& forall|i: int, j: int|
                    0 <= i < keys@.len() && 0 <= j < keys@.len() && i != j ==> final(
                    self).spec_eval(#[trigger] keys@[i]@) != final(self).spec_eval(
                        #[trigger] keys@[j]@)
                &&& forall|i: int|
                    0 <= i < keys@.len() ==> final(self).spec_eval(#[trigger] keys@[i]@) < (
                    if M::spec_minimal() {
                        keys@.len() as u64
                    } else {
                        final(self).table_size
                    })
                &&& (M::spec_minimal() ==> forall|v: int|
                    0 <= v < keys@.len() ==> #[trigger] part_key_covers(*final(self), keys@, v))
            },
            r is Ok && spec_valid_seed(config.seed) ==> final(self).seed == config.seed,
            r is Err ==> *final(self) == *old(self),
            spec_part_precheck(keys@, *config, M::spec_minimal()) ==> r == Err::<
                BuildTimings,
                BuildError,
            >(BuildError::InvalidConfiguration),
            spec_valid_seed(config.seed) ==> ((r == Err::<BuildTimings, BuildError>(
                BuildError::InvalidConfiguration)) <==> spec_part_rejected::<H>(keys@, *config,
                M::spec_minimal(), config.seed)),
            r == Err::<BuildTimings, BuildError>(BuildError::InvalidConfiguration)
                ==> (spec_part_precheck(keys@, *config, M::spec_minimal()) || exists|s: u64|
                spec_partition_reject(#[trigger] spec_fps_of::<H>(keys@, s), *config,
                    M::spec_minimal())),
            r matches Err(e) ==> (e == BuildError::InvalidConfiguration || e
                == BuildError::SearchExhausted),
    {
        let n = keys.len();
        if !config.is_valid() || n == 0 || config.minimal_output != M::minimal() {
            return Err(BuildError::InvalidConfiguration);
        }
        if n == usize::MAX {
            return Err(BuildError::InvalidConfiguration);
        }
        let np64 = config.num_partitions;
        if np64 > usize::MAX as u64 || np64 > 0x1_0000_0000_0000 {
            return Err(BuildError::InvalidConfiguration);
        }
        let np = np64 as usize;
        let minimal = M::minimal();
        let seed: u64 = if valid_seed(config.seed) {
            config.seed
        } else {
            random_seed()
        };
        // hash every key with the fixed seed
        let t_hash = clock_now();
        let mut fps: Vec<Fingerprint> = Vec::new();
        let mut i: usize = 0;
        while i < n
            invariant
                i <= n,
                fps@.len() == i,
                forall|k: int|
                    0 <= k < i ==> #[trigger] fps@[k] == H::spec_fingerprint(keys@[k]@, seed),
            decreases n - i,
        {
            let fp = H::hash(&keys[i], seed);
            fps.push(fp);
            i = i + 1;
        }
        let mapping_nanos = elapsed_nanos(&t_hash);
        proof {
            assert(fps@ =~= spec_fps_of::<H>(keys@, seed));
        }
        // split the fingerprints by partition, remembering where each key went
        let t_partition = clock_now();
        let mut lists: Vec<Vec<Fingerprint>> = Vec::new();
        let mut p: usize = 0;
        while p < np
            invariant
                p <= np,
                lists@.len() == p,
                forall|q: int| 0 <= q < p ==> (#[trigger] lists@[q])@.len() == 0,
            decreases np - p,
        {
            lists.push(Vec::new());
            p = p + 1;
        }
        let ghost mut kpos: Seq<int> = Seq::new(n as nat, |i: int| 0int);
        let ghost mut srcs: Seq<Seq<int>> = Seq::new(np as nat, |p: int| Seq::<int>::empty());
        proof {
            lemma_sum_lens_zero(lists@.map_values(|l: Vec<Fingerprint>| l@), np as int);
        }
        let mut i: usize = 0;
        while i < n
            invariant
                i <= n,
                lists@.len() == np,
                srcs.len() == np,
                kpos.len() == n,
                1 <= np64,
                np == np64,
                forall|q: int| 0 <= q < np ==> (#[trigger] srcs[q]).len() == lists@[q]@.len(),
                forall|q: int, k: int|
                    0 <= q < np && 0 <= k < srcs[q].len() ==> 0 <= #[trigger] srcs[q][k] < i
                        && lists@[q]@[k] == fps@[srcs[q][k]] && spec_partition_of(
                        fps@[srcs[q][k]].first, np64) == q,
                forall|q: int, k1: int, k2: int|
                    0 <= q < np && 0 <= k1 < k2 < srcs[q].len() ==> #[trigger] srcs[q][k1]
                        < #[trigger] srcs[q][k2],
                forall|ii: int|
                    #![trigger kpos[ii]]
                    0 <= ii < i ==> {
                        let q = spec_partition_of(fps@[ii].first, np64) as int;
                        &&& 0 <= kpos[ii] < srcs[q].len()
                        &&& srcs[q][kpos[ii]] == ii
                    },
                sum_lens(lists@.map_values(|l: Vec<Fingerprint>| l@), np as int) == i,
                forall|q: int|
                    0 <= q < np ==> (#[trigger] lists@[q])@.len() == part_count(fps@, np64, q,
                        i as int),
            decreases n - i,
        {
            let fp = fps[i];
            let q = partition_of(fp.first, np64) as usize;
            let ghost old_lists = lists@;
            let ghost old_srcs = srcs;
            lists[q].push(fp);
            proof {
                let qi = q as int;
                assert(lists@[qi]@ == old_lists[qi]@.push(fp));
                assert(forall|r: int| 0 <= r < np && r != qi ==> lists@[r] == old_lists[r]);
                kpos = kpos.update(i as int, old_srcs[qi].len() as int);
                srcs = srcs.update(qi, old_srcs[qi].push(i as int));
                assert(srcs[qi][old_srcs[qi].len() as int] == i);
                assert forall|ii: int| #![trigger kpos[ii]] 0 <= ii < i + 1 implies {
                    let q2 = spec_partition_of(fps@[ii].first, np64) as int;
                    &&& 0 <= kpos[ii] < srcs[q2].len()
                    &&& srcs[q2][kpos[ii]] == ii
                } by {
                    let q2 = spec_partition_of(fps@[ii].first, np64) as int;
                    if ii < i {
                        if q2 == qi {
                            assert(srcs[qi][kpos[ii]] == old_srcs[qi][kpos[ii]]);
                        }
                    }
                }
                lemma_sum_lens_push(old_lists.map_values(|l: Vec<Fingerprint>| l@),
                    lists@.map_values(|l: Vec<Fingerprint>| l@), qi, np as int);
                assert forall|q2: int| 0 <= q2 < np implies (#[trigger] lists@[q2])@.len()
                    == part_count(fps@, np64, q2, i + 1) by {
                    assert(part_count(fps@, np64, q2, i + 1) == part_count(fps@, np64, q2,
                        i as int) + (if spec_partition_of(fps@[i as int].first, np64) as int == q2 {
                        1int
                    } else {
                        0int
                    }));
                }
            }
            i = i + 1;
        }
        let partitioning_nanos = elapsed_nanos(&t_partition);
        proof {
            assert forall|q: int| 0 <= q < np implies (#[trigger] lists@[q])@.len() <= n by {
                lemma_sum_lens_at_least(lists@.map_values(|l: Vec<Fingerprint>| l@), np as int,
                    q);
            }
        }
        let geoms = match validate_partitions(&lists, config, minimal, Ghost(fps@)) {
            Ok(g) => g,
            Err(e) => {
                return Err(e);
            },
        };
        // build each partition independently; only the pilot search can
        // fail from here on
        let t_build = clock_now();
        let built_all = match build_partitions::<E>(&lists, &geoms, config, minimal,
            Ghost(fps@)) {
            Ok(o) => o,
            Err(e) => {
                return Err(e);
            },
        };
        let (parts, offsets, total, built_keys) = built_all;
        let building_nanos = elapsed_nanos(&t_build);
        proof {
            assert(built_keys == n) by {
                assert(lists@.map_values(|l: Vec<Fingerprint>| l@).len() == np);
            }
        }
        let result = PartitionedPhf {
            parts,
            offsets,
            num_partitions: np64,
            seed,
            num_keys: n as u64,
            table_size: total,
            minimal,
            _marker: PhantomData,
        };
        proof {
            lemma_partitioned_key_level::<M, H, E>(result, keys@, fps@, seed, np64, kpos, srcs,
                lists@.map_values(|l: Vec<Fingerprint>| l@), minimal);
            assert forall|q: int| 0 <= q < result.num_partitions implies {
                &&& (#[trigger] result.parts@[q]).num_buckets <= crate::encoders::MAX_PILOTS
                &&& 64 * result.parts@[q].num_buckets <= usize::MAX
                &&& forall|b: int|
                    0 <= b < result.parts@[q].num_buckets
                        ==> #[trigger] result.parts@[q].encoder.pilots()[b]
                        <= crate::search::PILOT_LIMIT
            } by {
                assert(built_ok(result.parts@[q], lists@[q]@, result.parts@[q].num_buckets,
                    result.parts@[q].table_size, minimal));
            }
            assert(result.saveable());
        }
        *self = result;
        let timings = BuildTimings {
            partitioning_nanos,
            mapping_ordering_nanos: mapping_nanos,
            searching_nanos: building_nanos,
            encoding_nanos: 0,
        };
        Ok(timings)
    }
}

/// A family of empty lists has total length zero.
proof fn lemma_sum_lens_zero(lists: Seq<Seq<Fingerprint>>, k: int)
    requires
        forall|r: int| 0 <= r < k ==> (#[trigger] lists[r]).len() == 0,
    ensures
        sum_lens(lists, k) == 0,
    decreases k,
{
    if k > 0 {
        lemma_sum_lens_zero(lists, k - 1);
    }
}

/// Pushing one element into one inner list grows the total length by one.
proof fn lemma_sum_lens_push(before: Seq<Seq<Fingerprint>>, after: Seq<Seq<Fingerprint>>, q: int,
    k: int)
    requires
        0 <= q < k,
        before.len() >= k,
        after.len() == before.len(),
        after[q].len() == before[q].len() + 1,
        forall|r: int| 0 <= r < before.len() && r != q ==> after[r] == before[r],
    ensures
        sum_lens(after, k) == sum_lens(before, k) + 1,
    decreases k,
{
    if k > 0 {
        if q == k - 1 {
            lemma_sum_lens_same(before, after, k - 1);
        } else {
            lemma_sum_lens_push(before, after, q, k - 1);
        }
    }
}

/// Equal prefixes have equal total lengths.
proof fn lemma_sum_lens_same(a: Seq<Seq<Fingerprint>>, b: Seq<Seq<Fingerprint>>, k: int)
    requires
        forall|r: int| 0 <= r < k ==> a[r] == b[r],
        k <= a.len(),
        k <= b.len(),
    ensures
        sum_lens(a, k) == sum_lens(b, k),
    decreases k,
{
    if k > 0 {
        lemma_sum_lens_same(a, b, k - 1);
    }
}

/// Partial sums of list lengths are non-negative.
proof fn lemma_sum_lens_nonneg(lists: Seq<Seq<Fingerprint>>, k: int)
    ensures
        sum_lens(lists, k) >= 0,
    decreases k,
{
    if k > 0 {
        lemma_sum_lens_nonneg(lists, k - 1);
    }
}

/// One list never exceeds the total length of the family.
proof fn lemma_sum_lens_at_least(lists: Seq<Seq<Fingerprint>>, k: int, p: int)
    requires
        0 <= p < k,
    ensures
        lists[p].len() <= sum_lens(lists, k),
    decreases k,
{
    if p == k - 1 {
        lemma_sum_lens_nonneg(lists, k - 1);
    } else {
        lemma_sum_lens_at_least(lists, k - 1, p);
    }
}

/// Lifts the per-partition guarantees to the whole key set: every key's
/// position lies in its partition's window, windows are disjoint, and for
/// minimal functions the windows tile `[0, num_keys)`.
#[verifier::rlimit(100)]
proof fn lemma_partitioned_key_level<M: Minimality, H: Hasher, E: Encoder>(
    s: PartitionedPhf<M, H, E>, keys: Seq<Vec<u8>>, fps: Seq<Fingerprint>, seed: u64, np: u64,
    kpos: Seq<int>, srcs: Seq<Seq<int>>, lists: Seq<Seq<Fingerprint>>, minimal: bool)
    requires
        s.wf(),
        s.seed == seed,
        s.minimal == minimal,
        s.num_partitions == np,
        s.num_keys == keys.len(),
        fps.len() == keys.len(),
        lists.len() == np,
        srcs.len() == np,
        kpos.len() == keys.len(),
        forall|k: int| 0 <= k < keys.len() ==> #[trigger] fps[k] == H::spec_fingerprint(keys[k]@,
            seed),
        forall|q: int| 0 <= q < np ==> (#[trigger] srcs[q]).len() == lists[q].len(),
        forall|q: int, k: int|
            0 <= q < np && 0 <= k < srcs[q].len() ==> 0 <= #[trigger] srcs[q][k] < keys.len()
                && lists[q][k] == fps[srcs[q][k]] && spec_partition_of(fps[srcs[q][k]].first, np)
                == q,
        forall|q: int, k1: int, k2: int|
            0 <= q < np && 0 <= k1 < k2 < srcs[q].len() ==> #[trigger] srcs[q][k1]
                < #[trigger] srcs[q][k2],
        forall|ii: int|
            #![trigger kpos[ii]]
            0 <= ii < keys.len() ==> {
                let q = spec_partition_of(fps[ii].first, np) as int;
                &&& 0 <= kpos[ii] < srcs[q].len()
                &&& srcs[q][kpos[ii]] == ii
            },
        forall|q: int|
            0 <= q < np ==> built_ok(#[trigger] s.parts@[q], lists[q], s.parts@[q].num_buckets,
                s.parts@[q].table_size, minimal),
    ensures
        forall|i: int, j: int|
            0 <= i < keys.len() && 0 <= j < keys.len() && i != j ==> s.spec_eval(
                #[trigger] keys[i]@) != s.spec_eval(#[trigger] keys[j]@),
        forall|i: int|
            0 <= i < keys.len() ==> s.spec_eval(#[trigger] keys[i]@) < (if minimal {
                keys.len() as u64
            } else {
                s.table_size
            }),
        minimal ==> forall|v: int| 0 <= v < keys.len() ==> #[trigger] part_key_covers(s, keys, v),
{
    let n = keys.len() as int;
    // each key's evaluation, unfolded
    assert forall|i: int| 0 <= i < n implies {
        let q = spec_partition_of(fps[i].first, np) as int;
        &&& s.spec_eval(#[trigger] keys[i]@) == s.offsets@[q] + s.parts@[q].spec_position(fps[i])
        &&& s.parts@[q].spec_position(fps[i]) < part_width(s.parts@[q])
        &&& s.offsets@[q] + part_width(s.parts@[q]) <= s.table_size
    } by {
        let q = spec_partition_of(fps[i].first, np) as int;
        assert(fps[i] == H::spec_fingerprint(keys[i]@, seed));
        assert(lists[q][kpos[i]] == fps[i]);
        assert(s.parts@[q].spec_position(lists[q][kpos[i]]) < (if minimal {
            lists[q].len() as u64
        } else {
            s.parts@[q].table_size
        }));
        assert(s.parts@[q].num_keys == lists[q].len());
        s.lemma_window_bound(q);
    }
    // injectivity
    assert forall|i: int, j: int|
        0 <= i < n && 0 <= j < n && i != j implies s.spec_eval(#[trigger] keys[i]@)
        != s.spec_eval(#[trigger] keys[j]@) by {
        let qi = spec_partition_of(fps[i].first, np) as int;
        let qj = spec_partition_of(fps[j].first, np) as int;
        if qi == qj {
            assert(srcs[qi][kpos[i]] == i && srcs[qi][kpos[j]] == j);
            assert(kpos[i] != kpos[j]);
            assert(lists[qi][kpos[i]] == fps[i] && lists[qi][kpos[j]] == fps[j]);
            assert(s.parts@[qi].spec_position(lists[qi][kpos[i]]) != s.parts@[qi].spec_position(
                lists[qi][kpos[j]]));
        } else {
            if qi < qj {
                lemma_offsets_ordered(s, qi, qj);
            } else {
                lemma_offsets_ordered(s, qj, qi);
            }
        }
    }
    // range
    assert forall|i: int| 0 <= i < n implies s.spec_eval(#[trigger] keys[i]@) < (if minimal {
        keys.len() as u64
    } else {
        s.table_size
    }) by {
        let q = spec_partition_of(fps[i].first, np) as int;
        assert(s.offsets@[q] + part_width(s.parts@[q]) <= s.table_size);
    }
    // minimal coverage
    if minimal {
        assert forall|v: int| 0 <= v < n implies #[trigger] part_key_covers(s, keys, v) by {
            s.lemma_locate(v, 0);
            let q = choose|q: int|
                0 <= q < s.num_partitions && s.offsets@[q] <= v && v < s.offsets@[q] + part_width(
                    s.parts@[q]);
            let local = v - s.offsets@[q];
            assert(local < s.parts@[q].num_keys);
            assert(s.parts@[q].num_keys == lists[q].len());
            assert(covers(s.parts@[q], lists[q], local));
            let k = choose|k: int|
                0 <= k < lists[q].len() && s.parts@[q].spec_position(#[trigger] lists[q][k])
                    == local;
            let i = srcs[q][k];
            assert(lists[q][k] == fps[i]);
            assert(spec_partition_of(fps[i].first, np) == q);
            assert(s.spec_eval(keys[i]@) == s.offsets@[q] + local);
            assert(s.spec_eval(keys[i]@) == v);
        }
    }
}

/// Windows of distinct partitions are disjoint.
proof fn lemma_offsets_ordered<M: Minimality, H: Hasher, E: Encoder>(s: PartitionedPhf<M, H, E>,
    p1: int, p2: int)
    requires
        s.wf(),
        0 <= p1 < p2 < s.num_partitions,
    ensures
        s.offsets@[p1] + part_width(s.parts@[p1]) <= s.offsets@[p2],
    decreases p2 - p1,
{
    if p2 == p1 + 1 {
    } else {
        lemma_offsets_ordered(s, p1 + 1, p2);
        assert(s.offsets@[p1 + 1] == s.offsets@[p1] + part_width(s.parts@[p1]));
    }
}

} // verus!
