//! A non-partitioned perfect hash function: one table built from the whole
//! key set, with a bounded seed-retry loop around the pilot search.
use vstd::prelude::*;
use core::marker::PhantomData;
use crate::encoders::{Encoder, MAX_PILOTS};
use crate::hashing::{Fingerprint, Hashable, Hasher};
use crate::minimality::Minimality;
use crate::table::{build_table, built_ok, compute_params, spec_params_reject, PhfTable};
use crate::utils::{clock_now, elapsed_nanos, random_seed};
use crate::{spec_valid_seed, valid_seed, BuildConfiguration, BuildError, BuildTimings};

verus! {

/// Number of seeds tried before the build gives up, when no explicit seed
/// is supplied.
pub const MAX_SEED_ATTEMPTS: u64 = 10;

/// A non-partitioned perfect hash function over a fixed key set.
pub struct SinglePhf<M: Minimality, H: Hasher, E: Encoder> {
    /// The built table.
    pub inner: PhfTable<E>,
    /// The seed keys are hashed with.
    pub seed: u64,
    /// Carries the minimality marker and the hasher choice.
    pub _marker: PhantomData<(M, H)>,
}

impl<M: Minimality, H: Hasher, E: Encoder> SinglePhf<M, H, E> {
    /// The underlying table is consistent.
    pub open spec fn wf(&self) -> bool {
        self.inner.wf()
    }

    /// The seed keys are hashed with.
    pub open spec fn spec_seed(&self) -> u64 {
        self.seed
    }

    pub open spec fn spec_num_keys(&self) -> u64 {
        self.inner.num_keys
    }

    pub open spec fn spec_table_size(&self) -> u64 {
        self.inner.table_size
    }

    pub open spec fn spec_minimal(&self) -> bool {
        self.inner.minimal
    }

    /// The position of a key given by its byte representation: hash with
    /// the stored seed, then look the fingerprint up in the table.
    pub open spec fn spec_eval(&self, bytes: Seq<u8>) -> u64 {
        self.inner.spec_position(H::spec_fingerprint(bytes, self.seed))
    }

    /// What persistence relies on beyond well-formedness: the pilots are
    /// bounded by the search limit and the bucket count fits what this
    /// machine can rebuild.  Every function the builder or the loader
    /// produces satisfies it.
    pub open spec fn saveable(&self) -> bool {
        &&& self.wf()
        &&& forall|b: int|
            0 <= b < self.inner.num_buckets ==> #[trigger] self.inner.encoder.pilots()[b]
                <= crate::search::PILOT_LIMIT
        &&& self.inner.num_buckets <= MAX_PILOTS
        &&& 64 * self.inner.num_buckets <= usize::MAX
    }

    /// An empty function: a one-slot table that sends everything to zero.
    pub fn new() -> (r: Self)
        ensures
            r.wf(),
            r.spec_num_keys() == 0,
            r.spec_seed() == 0,
            !r.spec_minimal(),
    {
        let mut trivial: Vec<u64> = Vec::new();
        trivial.push(0);
        let encoder = E::encode(&trivial);
        SinglePhf {
            inner: PhfTable {
                num_keys: 0,
                table_size: 1,
                num_buckets: 1,
                encoder,
                free_slots: Vec::new(),
                minimal: false,
            },
            seed: 0,
            _marker: PhantomData,
        }
    }

    /// Builds the function from a set of keys, given as byte strings.
    ///
    /// On success the function is injective over the keys, its values lie
    /// below `table_size` (below `num_keys` when minimal), and a minimal
    /// function covers `[0, num_keys)` exactly.  A failed build leaves the
    /// function unchanged.  An invalid configuration, an empty key set, a
    /// minimality flag disagreeing with `M`, or a size beyond what this
    /// machine can index is rejected as `InvalidConfiguration`; otherwise
    /// failure means the pilot search was exhausted on every seed tried.
    #[verifier::rlimit(60)]
    #[verifier::loop_isolation(false)]
    pub fn build_in_internal_memory_from_bytes(&mut self, keys: &Vec<Vec<u8>>,
        config: &BuildConfiguration) -> (r: Result<BuildTimings, BuildError>)
        requires
            keys@.len() <= 0x1_0000_0000_0000,
        ensures
            r is Ok ==> {
                &&& final(self).wf()
                &&& final(self).saveable()
                &&& final(self).spec_minimal() == M::spec_minimal()
                &&& final(self).spec_num_keys() == keys@.len()
                &&& keys@.len() <= final(self).spec_table_size()
                &&& forall|i: int, j: int|
                    0 <= i < keys@.len() && 0 <= j < keys@.len() && i != j ==> final(
                    self).spec_eval(#[trigger] keys@[i]@) != final(self).spec_eval(
                        #[trigger] keys@[j]@)
                &&& forall|i: int|
                    0 <= i < keys@.len() ==> final(self).spec_eval(#[trigger] keys@[i]@) < (
                    if M::spec_minimal() {
                        keys@.len() as u64
                    } else {
                        final(self).spec_table_size()
                    })
                &&& (M::spec_minimal() ==> forall|v: int|
                    0 <= v < keys@.len() ==> #[trigger] key_covers(*final(self), keys@, v))
            },
            r is Ok && spec_valid_seed(config.seed) ==> final(self).spec_seed() == config.seed,
            r is Err ==> *final(self) == *old(self),
            (r == Err::<BuildTimings, BuildError>(BuildError::InvalidConfiguration))
                <==> spec_build_rejected(keys@, *config, M::spec_minimal()),
            r is Err && !spec_build_rejected(keys@, *config, M::spec_minimal())
                && spec_valid_seed(config.seed) ==> r == Err::<BuildTimings, BuildError>(
                BuildError::SearchExhausted),
            r is Err && !spec_build_rejected(keys@, *config, M::spec_minimal())
                && !spec_valid_seed(config.seed) ==> r == Err::<BuildTimings, BuildError>(
                BuildError::SeedsExhausted),
    {
        let n = keys.len();
        if !config.is_valid() || n == 0 || config.minimal_output != M::minimal() {
            return Err(BuildError::InvalidConfiguration);
        }
        if n == usize::MAX {
            return Err(BuildError::InvalidConfiguration);
        }
        let params = match compute_params(n as u64, config.c_milli, config.alpha_milli,
            config.num_buckets) {
            Ok(p) => p,
            Err(e) => {
                return Err(e);
            },
        };
        let num_buckets = params.0;
        let table_size = params.1;
        let minimal = M::minimal();
        let explicit = valid_seed(config.seed);
        let attempts: u64 = if explicit {
            1
        } else {
            MAX_SEED_ATTEMPTS
        };
        let mut attempt: u64 = 0;
        while attempt < attempts
            invariant
                *self == *old(self),
                n == keys@.len(),
                n < usize::MAX,
                1 <= n <= 0x1_0000_0000_0000,
                1 <= num_buckets <= MAX_PILOTS,
                num_buckets <= 0x1_0000_0000_0000,
                64 * num_buckets <= usize::MAX,
                num_buckets <= usize::MAX,
                1 <= table_size <= 0x1_0000_0000_0000,
                table_size <= usize::MAX,
                n <= table_size,
                minimal == M::spec_minimal(),
            decreases attempts - attempt,
        {
            let seed: u64 = if explicit {
                config.seed
            } else {
                random_seed()
            };
            let t_hash = clock_now();
            let mut fps: Vec<Fingerprint> = Vec::new();
            let mut i: usize = 0;
            while i < n
                invariant
                    i <= n,
                    n == keys@.len(),
                    fps@.len() == i,
                    forall|k: int|
                        0 <= k < i ==> #[trigger] fps@[k] == H::spec_fingerprint(keys@[k]@, seed),
                decreases n - i,
            {
                let fp = H::hash(&keys[i], seed);
                fps.push(fp);
                i = i + 1;
            }
            let mapping_nanos = elapsed_nanos(&t_hash);
            match build_table::<E>(&fps, num_buckets, table_size, minimal) {
                Ok(built) => {
                    let (t, searching_nanos, encoding_nanos) = built;
                    proof {
                        assert(built_ok(t, fps@, num_buckets, table_size, minimal));
                    }
                    self.inner = t;
                    self.seed = seed;
                    proof {
                        lemma_key_level::<M, H, E>(*self, keys@, fps@, seed, num_buckets,
                            table_size, minimal);
                    }
                    let timings = BuildTimings {
                        partitioning_nanos: 0,
                        mapping_ordering_nanos: mapping_nanos,
                        searching_nanos,
                        encoding_nanos,
                    };
                    return Ok(timings);
                },
                Err(_) => {
                    attempt = attempt + 1;
                },
            }
        }
        if explicit {
            Err(BuildError::SearchExhausted)
        } else {
            Err(BuildError::SeedsExhausted)
        }
    }

    /// The position of `key`; collides with a real key's position when
    /// `key` was not in the build set, but always stays in the declared
    /// range.
    pub fn hash<K: Hashable>(&self, key: &K) -> (r: u64)
        requires
            self.wf(),
        ensures
            r == self.spec_eval(key.key_bytes()),
            r < self.spec_table_size(),
            self.spec_minimal() ==> r < self.spec_num_keys(),
    {
        let bytes = key.as_bytes();
        let fp = H::hash(&bytes, self.seed);
        self.inner.position(fp)
    }

    /// Number of keys the function was built from.
    pub fn num_keys(&self) -> (r: u64)
        ensures
            r == self.spec_num_keys(),
    {
        self.inner.num_keys
    }

    /// The length `m` of the slot table; at least the key count.  Values
    /// of [`Self::hash`] lie below it (and below `num_keys` when the
    /// function is minimal).
    pub fn table_size(&self) -> (r: u64)
        ensures
            r == self.spec_table_size(),
    {
        self.inner.table_size
    }

    /// The seed keys are hashed with.
    pub fn seed(&self) -> (r: u64)
        ensures
            r == self.spec_seed(),
    {
        self.seed
    }

    /// Size in bits of the parts a save would persist, clamped at
    /// `u64::MAX`.
    pub fn num_bits(&self) -> (r: u64)
        requires
            self.wf(),
        ensures
            r as int == {
                let exact = self.inner.encoder.space_bits() + 64 * self.inner.free_slots@.len()
                    + 320;
                if exact <= u64::MAX {
                    exact
                } else {
                    u64::MAX as int
                }
            },
    {
        let eb = self.inner.encoder.num_bits();
        proof {
            assert(self.inner.free_slots@.len() <= 0x1_0000_0000_0000);
            assert(64 * self.inner.free_slots@.len() <= 64 * 0x1_0000_0000_0000) by (
            nonlinear_arith)
                requires
                    self.inner.free_slots@.len() <= 0x1_0000_0000_0000,
            ;
        }
        let extra = 64 * (self.inner.free_slots.len() as u64) + 320;
        if eb > u64::MAX - extra {
            u64::MAX
        } else {
            eb + extra
        }
    }

    /// Assembles a function from a table and a seed; the building block of
    /// `load`.
    pub fn from_parts(inner: PhfTable<E>, seed: u64) -> (r: Self)
        ensures
            r.inner == inner,
            r.seed == seed,
    {
        SinglePhf { inner, seed, _marker: PhantomData }
    }
}

/// The inputs on which a build is rejected before any work: an invalid
/// configuration, an empty key set, a minimality flag disagreeing with
/// the requested kind, or derived sizes beyond what the structures or
/// this machine can hold.
pub open spec fn spec_build_rejected(keys: Seq<Vec<u8>>, config: BuildConfiguration,
    minimal: bool) -> bool {
    ||| !config.spec_valid()
    ||| keys.len() == 0
    ||| config.minimal_output != minimal
    ||| keys.len() == usize::MAX
    ||| (keys.len() > 0 && spec_params_reject(keys.len() as u64, config.c_milli,
        config.alpha_milli, config.num_buckets))
}

/// Some key of `keys` evaluates exactly to position `v`.
pub open spec fn key_covers<M: Minimality, H: Hasher, E: Encoder>(s: SinglePhf<M, H, E>,
    keys: Seq<Vec<u8>>, v: int) -> bool {
    exists|i: int| 0 <= i < keys.len() && s.spec_eval(#[trigger] keys[i]@) == v
}

/// Lifts the fingerprint-level build guarantees to the key level: the
/// fingerprints were computed from the keys with the stored seed, so the
/// key positions inherit injectivity, range, and (when minimal) coverage.
proof fn lemma_key_level<M: Minimality, H: Hasher, E: Encoder>(s: SinglePhf<M, H, E>,
    keys: Seq<Vec<u8>>, fps: Seq<Fingerprint>, seed: u64, num_buckets: u64, table_size: u64,
    minimal: bool)
    requires
        s.seed == seed,
        fps.len() == keys.len(),
        forall|k: int| 0 <= k < keys.len() ==> #[trigger] fps[k] == H::spec_fingerprint(keys[k]@,
            seed),
        built_ok(s.inner, fps, num_buckets, table_size, minimal),
    ensures
        forall|i: int, j: int|
            0 <= i < keys.len() && 0 <= j < keys.len() && i != j ==> s.spec_eval(
                #[trigger] keys[i]@) != s.spec_eval(#[trigger] keys[j]@),
        forall|i: int|
            0 <= i < keys.len() ==> s.spec_eval(#[trigger] keys[i]@) < (if minimal {
                keys.len() as u64
            } else {
                table_size
            }),
        minimal ==> forall|v: int| 0 <= v < keys.len() ==> #[trigger] key_covers(s, keys, v),
{
    assert forall|i: int| 0 <= i < keys.len() implies s.spec_eval(#[trigger] keys[i]@)
        == s.inner.spec_position(fps[i]) by {
        assert(fps[i] == H::spec_fingerprint(keys[i]@, seed));
    }
    if minimal {
        assert forall|v: int| 0 <= v < keys.len() implies #[trigger] key_covers(s, keys, v) by {
            assert(crate::table::covers(s.inner, fps, v));
            let i = choose|i: int|
                0 <= i < fps.len() && s.inner.spec_position(#[trigger] fps[i]) == v;
            assert(s.spec_eval(keys[i]@) == v);
        }
    }
}

} // verus!
