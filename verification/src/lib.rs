//! Minimal and non-minimal perfect hash functions built with the PTHash
//! construction: keys are hashed to fingerprints, fingerprints are grouped
//! into buckets, and a per-bucket pilot value is searched so that every key
//! lands on a distinct slot of a table.  The pilot sequence is then stored
//! in one of several succinct encodings.
use vstd::prelude::*;

pub mod bits;
pub mod bucketing;
pub mod encoders;
pub mod hashing;
pub mod minimality;
pub mod partitioned_phf;
pub mod search;
pub mod serialize;
pub mod single_phf;
pub mod table;
pub mod utils;

pub use encoders::DictionaryDictionary;
pub use encoders::EliasFano;
pub use encoders::Encoder;
pub use encoders::PartitionedCompact;
pub use hashing::Fingerprint;
pub use hashing::Hashable;
pub use hashing::Hasher;
pub use hashing::MurmurHash2_64;
pub use hashing::MurmurHash2_128;
pub use minimality::Minimal;
pub use minimality::Minimality;
pub use minimality::Nonminimal;
pub use partitioned_phf::PartitionedPhf;
pub use single_phf::SinglePhf;
pub use utils::check;
pub use utils::ViolatedInvariant;

verus! {

/// Sentinel meaning "no seed was supplied; draw one at random".
pub const INVALID_SEED: u64 = 0xffff_ffff_ffff_ffff;

/// True when `seed` is an explicit seed rather than the unset sentinel.
pub open spec fn spec_valid_seed(seed: u64) -> bool {
    seed != INVALID_SEED
}

/// True when `seed` is an explicit seed rather than the unset sentinel.
pub fn valid_seed(seed: u64) -> (r: bool)
    ensures
        r == spec_valid_seed(seed),
{
    seed != INVALID_SEED
}

/// Parameter set of a build, fixed before any work begins.
///
/// The load factor and the bucket-density constant are kept as integer
/// thousandths (`alpha_milli == 940` stands for a load factor of `0.94`).
#[derive(Clone, Copy, Debug, PartialEq, Eq, Structural)]
pub struct BuildConfiguration {
    /// Bucket-density constant times 1000; controls the bucket/key ratio.
    pub c_milli: u64,
    /// Load factor (keys per table slot) times 1000; in `(0, 1000]`.
    pub alpha_milli: u64,
    /// Number of independent partitions; `1` means a single table.
    pub num_partitions: u64,
    /// Explicit bucket count, or `0` to derive it from `c_milli`.
    pub num_buckets: u64,
    /// Worker threads a caller may use when hashing; the core is sequential.
    pub num_threads: u64,
    /// Explicit seed, or [`INVALID_SEED`] to draw seeds at random.
    pub seed: u64,
    /// RAM budget in bytes; kept for callers, not consulted by the core.
    pub ram: u64,
    /// When set, the output range is exactly `[0, num_keys)`.
    pub minimal_output: bool,
    /// When set, callers may report progress; the core itself is silent.
    pub verbose_output: bool,
}

impl BuildConfiguration {
    /// Default parameters: density 4.5, load factor 0.98, one partition.
    pub fn new() -> (r: BuildConfiguration)
        ensures
            r.c_milli == 4500,
            r.alpha_milli == 980,
            r.num_partitions == 1,
            r.num_buckets == 0,
            r.num_threads == 1,
            r.seed == INVALID_SEED,
            !r.minimal_output,
            r.verbose_output,
    {
        BuildConfiguration {
            c_milli: 4500,
            alpha_milli: 980,
            num_partitions: 1,
            num_buckets: 0,
            num_threads: 1,
            seed: INVALID_SEED,
            ram: 0x4000_0000,
            minimal_output: false,
            verbose_output: true,
        }
    }

    /// The checks run before any work: positive density, load factor in
    /// `(0, 1000]` thousandths, and at least one partition.
    pub open spec fn spec_valid(self) -> bool {
        &&& self.c_milli >= 1
        &&& 1 <= self.alpha_milli <= 1000
        &&& self.num_partitions >= 1
    }

    /// Runs the validity checks of [`Self::spec_valid`].
    pub fn is_valid(&self) -> (r: bool)
        ensures
            r == self.spec_valid(),
    {
        self.c_milli >= 1 && 1 <= self.alpha_milli && self.alpha_milli <= 1000
            && self.num_partitions >= 1
    }
}

/// Wall-clock duration of each build phase, in nanoseconds.
#[derive(Clone, Copy, Debug, PartialEq, Eq, Structural)]
pub struct BuildTimings {
    pub partitioning_nanos: u64,
    pub mapping_ordering_nanos: u64,
    pub searching_nanos: u64,
    pub encoding_nanos: u64,
}

impl BuildTimings {
    /// All four phases at zero.
    pub fn new() -> (r: BuildTimings)
        ensures
            r.partitioning_nanos == 0,
            r.mapping_ordering_nanos == 0,
            r.searching_nanos == 0,
            r.encoding_nanos == 0,
    {
        BuildTimings {
            partitioning_nanos: 0,
            mapping_ordering_nanos: 0,
            searching_nanos: 0,
            encoding_nanos: 0,
        }
    }
}

/// Why a build failed.  A failed build returns no partial structure.
#[derive(Clone, Copy, Debug, PartialEq, Eq, Structural)]
pub enum BuildError {
    /// The configuration was rejected before any work began.
    InvalidConfiguration,
    /// A bucket exhausted the pilot search bound for the current seed.
    SearchExhausted,
    /// Every seed attempt failed; the build is abandoned.
    SeedsExhausted,
}

/// Why a persisted byte stream was rejected on load.
#[derive(Clone, Copy, Debug, PartialEq, Eq, Structural)]
pub enum LoadError {
    /// The stream is truncated, carries an unknown tag, or is inconsistent.
    SerializationError,
}

} // verus!
