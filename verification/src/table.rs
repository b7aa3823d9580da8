//! The built table of one (sub-)function: an encoded pilot sequence, the
//! table geometry, and, for minimal functions, the free-slot map.  Building
//! one from fingerprints yields a provably injective — and, when minimal,
//! bijective — assignment of the fingerprints to positions.
use vstd::prelude::*;
use crate::bucketing::{bucket_of, slot_of, spec_raw_slot, MAX_SIZE};
use crate::encoders::{Encoder, MAX_PILOTS};
use crate::hashing::Fingerprint;
use crate::minimality::fill_free_slots;
use crate::search::{lemma_cnt_bounds, raw_of, search_pilots, PILOT_LIMIT};
use crate::BuildError;

verus! {

broadcast use crate::bucketing::lemma_bucket_of_in_range, crate::bucketing::lemma_slot_of_in_range;

/// One built (sub-)function.
pub struct PhfTable<E: Encoder> {
    /// Number of keys the table was built from.
    pub num_keys: u64,
    /// Size of the slot space; raw positions lie below it.
    pub table_size: u64,
    /// Number of buckets of the pilot sequence.
    pub num_buckets: u64,
    /// The encoded pilot sequence.
    pub encoder: E,
    /// The free-slot map (empty unless minimal).
    pub free_slots: Vec<u64>,
    /// Whether positions are remapped into `[0, num_keys)`.
    pub minimal: bool,
}

impl<E: Encoder> PhfTable<E> {
    /// Internal consistency: the encoder is sound, the geometry matches,
    /// and a minimal table carries a sound free-slot map.
    pub open spec fn wf(&self) -> bool {
        &&& self.encoder.wf()
        &&& self.encoder.pilots().len() == self.num_buckets
        &&& 1 <= self.num_buckets <= MAX_SIZE
        &&& 1 <= self.table_size <= MAX_SIZE
        &&& self.num_keys <= self.table_size
        &&& self.minimal ==> {
            &&& self.num_keys >= 1
            &&& self.free_slots@.len() == self.table_size - self.num_keys
            &&& forall|q: int| 0 <= q < self.free_slots@.len() ==> #[trigger] self.free_slots@[q]
                < self.num_keys
        }
        &&& !self.minimal ==> self.free_slots@.len() == 0
    }

    /// The position of a fingerprint: the raw slot, remapped through the
    /// free-slot map when the table is minimal and the slot is out of
    /// range.
    pub open spec fn spec_position(&self, fp: Fingerprint) -> u64 {
        let raw = spec_raw_slot(self.encoder.pilots(), self.num_buckets, self.table_size, fp);
        if self.minimal && raw >= self.num_keys {
            self.free_slots@[raw - self.num_keys]
        } else {
            raw
        }
    }

    /// Computes [`Self::spec_position`]; always in the declared range.
    pub fn position(&self, fp: Fingerprint) -> (r: u64)
        requires
            self.wf(),
        ensures
            r == self.spec_position(fp),
            r < self.table_size,
            self.minimal ==> r < self.num_keys,
    {
        let b = bucket_of(fp.first, self.num_buckets);
        let pilot = self.encoder.decode(b);
        let raw = slot_of(fp.second, pilot, self.table_size);
        if self.minimal && raw >= self.num_keys {
            let fl = self.free_slots.len();
            self.free_slots[(raw - self.num_keys) as usize]
        } else {
            raw
        }
    }
}

/// Some fingerprint of `fps` lands exactly on position `v`.
pub open spec fn covers<E: Encoder>(t: PhfTable<E>, fps: Seq<Fingerprint>, v: int) -> bool {
    exists|i: int| 0 <= i < fps.len() && t.spec_position(#[trigger] fps[i]) == v
}

/// Everything a successful build guarantees: the table is well-formed with
/// the requested geometry, the fingerprints map to pairwise distinct
/// positions inside the declared range, and a minimal table covers
/// `[0, num_keys)` exactly.
pub open spec fn built_ok<E: Encoder>(t: PhfTable<E>, fps: Seq<Fingerprint>, num_buckets: u64,
    table_size: u64, minimal: bool) -> bool {
    &&& t.wf()
    &&& t.minimal == minimal
    &&& t.num_keys == fps.len()
    &&& t.table_size == table_size
    &&& t.num_buckets == num_buckets
    &&& forall|b: int| 0 <= b < num_buckets ==> #[trigger] t.encoder.pilots()[b] <= PILOT_LIMIT
    &&& forall|i: int, j: int|
        0 <= i < fps.len() && 0 <= j < fps.len() && i != j ==> t.spec_position(#[trigger] fps[i])
            != t.spec_position(#[trigger] fps[j])
    &&& forall|i: int|
        0 <= i < fps.len() ==> t.spec_position(#[trigger] fps[i]) < (if minimal {
            fps.len() as u64
        } else {
            table_size
        })
    &&& (minimal ==> forall|v: int| 0 <= v < fps.len() ==> #[trigger] covers(t, fps, v))
}

/// Builds the table for one set of fingerprints: searches the pilots,
/// fills the free-slot map when minimal, and encodes.  Also reports the
/// wall-clock nanoseconds spent searching and encoding.
#[verifier::rlimit(100)]
pub fn build_table<E: Encoder>(fps: &Vec<Fingerprint>, num_buckets: u64, table_size: u64,
    minimal: bool) -> (r: Result<(PhfTable<E>, u64, u64), BuildError>)
    requires
        fps@.len() < usize::MAX,
        fps@.len() <= MAX_SIZE,
        1 <= num_buckets <= MAX_SIZE,
        num_buckets <= MAX_PILOTS,
        64 * num_buckets <= usize::MAX,
        1 <= table_size <= MAX_SIZE,
        num_buckets <= usize::MAX,
        table_size <= usize::MAX,
        minimal ==> fps@.len() >= 1,
    ensures
        r matches Ok(t) ==> built_ok(t.0, fps@, num_buckets, table_size, minimal),
        r matches Err(e) ==> e == BuildError::SearchExhausted,
{
    let t_search = crate::utils::clock_now();
    let searched = match search_pilots(fps, num_buckets, table_size) {
        Ok(s) => s,
        Err(e) => {
            return Err(e);
        },
    };
    let ghost pilots_view = searched.pilots@;
    let ghost taken_view = searched.taken@;
    let n = fps.len() as u64;
    proof {
        lemma_cnt_bounds(taken_view, 0, table_size as int);
    }
    let free_slots: Vec<u64> = if minimal {
        fill_free_slots(&searched.taken, n)
    } else {
        Vec::new()
    };
    let searching_nanos = crate::utils::elapsed_nanos(&t_search);
    let t_encode = crate::utils::clock_now();
    let encoder = E::encode(&searched.pilots);
    let encoding_nanos = crate::utils::elapsed_nanos(&t_encode);
    let t = PhfTable { num_keys: n, table_size, num_buckets, encoder, free_slots, minimal };
    proof {
        let fs = fps@;
        let nk = n as u64;
        // positions agree with the searched raw slots
        assert forall|i: int| 0 <= i < fs.len() implies spec_raw_slot(t.encoder.pilots(),
            num_buckets, table_size, #[trigger] fs[i]) == raw_of(pilots_view, num_buckets,
            table_size, fs, i) by {}
        // pairwise distinct final positions
        assert forall|i: int, j: int|
            0 <= i < fs.len() && 0 <= j < fs.len() && i != j implies t.spec_position(
            #[trigger] fs[i]) != t.spec_position(#[trigger] fs[j]) by {
            let ri = raw_of(pilots_view, num_buckets, table_size, fs, i);
            let rj = raw_of(pilots_view, num_buckets, table_size, fs, j);
            assert(ri != rj);
            assert(taken_view[ri as int] && taken_view[rj as int]);
            if minimal {
                if ri >= nk && rj >= nk {
                    if ri < rj {
                        assert(t.free_slots@[ri - nk] < t.free_slots@[rj - nk]);
                    } else {
                        assert(t.free_slots@[rj - nk] < t.free_slots@[ri - nk]);
                    }
                } else if ri >= nk && rj < nk {
                    assert(!taken_view[t.free_slots@[ri - nk] as int]);
                } else if ri < nk && rj >= nk {
                    assert(!taken_view[t.free_slots@[rj - nk] as int]);
                }
            }
        }
        // positions stay inside the declared range
        assert forall|i: int| 0 <= i < fs.len() implies t.spec_position(#[trigger] fs[i]) < (
        if minimal {
            fs.len() as u64
        } else {
            table_size
        }) by {
            let ri = raw_of(pilots_view, num_buckets, table_size, fs, i);
            if minimal {
                if ri >= nk {
                    assert(t.free_slots@[ri - nk] < nk);
                }
            }
        }
        // a minimal table covers [0, num_keys) exactly
        if minimal {
            assert forall|v: int| 0 <= v < fs.len() implies #[trigger] covers(t, fs, v) by {
                if taken_view[v] {
                    let i = choose|i: int|
                        0 <= i < fs.len() && raw_of(pilots_view, num_buckets, table_size, fs, i)
                            == v;
                    assert(t.spec_position(fs[i]) == v);
                } else {
                    let p = choose|p: int|
                        nk <= p < taken_view.len() && taken_view[p] && t.free_slots@[p - nk] == v;
                    let i = choose|i: int|
                        0 <= i < fs.len() && raw_of(pilots_view, num_buckets, table_size, fs, i)
                            == p;
                    assert(raw_of(pilots_view, num_buckets, table_size, fs, i) == p);
                    assert(t.spec_position(fs[i]) == v);
                }
            }
        }
    }
    Ok((t, searching_nanos, encoding_nanos))
}

/// The table length the load factor dictates: the least `m >= n` with
/// `n/m` at most `alpha_milli/1000`, that is `ceil(1000*n/alpha_milli)`
/// clamped below by `n`.
pub open spec fn spec_table_len(n: u64, alpha_milli: u64) -> int {
    let ceil = (n * 1000 + alpha_milli - 1) / (alpha_milli as int);
    if ceil < n {
        n as int
    } else {
        ceil
    }
}

/// The floor of the base-two logarithm of `n`, at least 1.
pub open spec fn spec_log2_floor(n: u64) -> int {
    let bw = crate::bits::spec_bit_width(n as nat) as int;
    if bw <= 1 {
        1
    } else {
        bw - 1
    }
}

/// The bucket count the density constant dictates: the explicit count
/// when one is configured, else `c_milli/1000 * n / log2(n)`, at least 1.
pub open spec fn spec_bucket_count(n: u64, c_milli: u64, num_buckets_cfg: u64) -> int {
    if num_buckets_cfg > 0 {
        num_buckets_cfg as int
    } else {
        let raw = (c_milli * n) / (1000 * spec_log2_floor(n));
        if raw < 1 {
            1
        } else {
            raw
        }
    }
}

/// The derived geometry exceeds what the structures or this machine can
/// hold; the build rejects the configuration.
pub open spec fn spec_params_reject(n: u64, c_milli: u64, alpha_milli: u64,
    num_buckets_cfg: u64) -> bool {
    let m = spec_table_len(n, alpha_milli);
    let nb = spec_bucket_count(n, c_milli, num_buckets_cfg);
    ||| m > MAX_SIZE
    ||| m > usize::MAX
    ||| nb > MAX_PILOTS
    ||| nb > MAX_SIZE
    ||| nb > (usize::MAX as int) / 64
}

/// Derives the table geometry from the key count and the configuration:
/// exactly [`spec_table_len`] and [`spec_bucket_count`], rejected if and
/// only if [`spec_params_reject`] holds.
pub fn compute_params(n: u64, c_milli: u64, alpha_milli: u64, num_buckets_cfg: u64) -> (r: Result<
    (u64, u64),
    BuildError,
>)
    requires
        n >= 1,
        c_milli >= 1,
        1 <= alpha_milli <= 1000,
    ensures
        r matches Ok(p) ==> {
            &&& p.0 == spec_bucket_count(n, c_milli, num_buckets_cfg)
            &&& p.1 == spec_table_len(n, alpha_milli)
            &&& 1 <= p.0 <= MAX_PILOTS
            &&& p.0 <= MAX_SIZE
            &&& 64 * p.0 <= usize::MAX
            &&& p.0 <= usize::MAX
            &&& 1 <= p.1 <= MAX_SIZE
            &&& p.1 <= usize::MAX
            &&& n <= p.1
        },
        (r is Err) <==> spec_params_reject(n, c_milli, alpha_milli, num_buckets_cfg),
        r matches Err(e) ==> e == BuildError::InvalidConfiguration,
{
    // table size: ceil(n * 1000 / alpha), at least n
    let m128: u128 = ((n as u128) * 1000 + (alpha_milli as u128) - 1) / (alpha_milli as u128);
    let m128: u128 = if m128 < n as u128 {
        n as u128
    } else {
        m128
    };
    if m128 > MAX_SIZE as u128 {
        return Err(BuildError::InvalidConfiguration);
    }
    let m = m128 as u64;
    if m > usize::MAX as u64 {
        return Err(BuildError::InvalidConfiguration);
    }
    // bucket count
    let nb: u64 = if num_buckets_cfg > 0 {
        num_buckets_cfg
    } else {
        let bw = crate::bits::bit_width(n);
        let lg: u64 = if bw <= 1 {
            1
        } else {
            bw - 1
        };
        proof {
            assert((c_milli as int) * (n as int) <= (0xffff_ffff_ffff_ffff as int)
                * (0xffff_ffff_ffff_ffff as int)) by (nonlinear_arith)
                requires
                    c_milli <= 0xffff_ffff_ffff_ffff,
                    n <= 0xffff_ffff_ffff_ffff,
            ;
        }
        let nb128: u128 = ((c_milli as u128) * (n as u128)) / (1000u128 * (lg as u128));
        if nb128 > MAX_PILOTS as u128 {
            return Err(BuildError::InvalidConfiguration);
        }
        if nb128 < 1 {
            1
        } else {
            nb128 as u64
        }
    };
    if nb > MAX_PILOTS || nb > MAX_SIZE {
        return Err(BuildError::InvalidConfiguration);
    }
    if nb as u128 > (usize::MAX as u128) / 64 {
        return Err(BuildError::InvalidConfiguration);
    }
    Ok((nb, m))
}

/// Two tables that decode to the same pilot sequence and share their
/// geometry, minimality, and free-slot map assign every fingerprint the
/// same position, whatever encoders represent them: the choice of encoder
/// changes only the size of the representation, never a result.
pub proof fn lemma_encoder_equivalence<E1: Encoder, E2: Encoder>(t1: PhfTable<E1>,
    t2: PhfTable<E2>, fp: Fingerprint)
    requires
        t1.encoder.pilots() == t2.encoder.pilots(),
        t1.num_keys == t2.num_keys,
        t1.table_size == t2.table_size,
        t1.num_buckets == t2.num_buckets,
        t1.minimal == t2.minimal,
        t1.free_slots@ == t2.free_slots@,
    ensures
        t1.spec_position(fp) == t2.spec_position(fp),
{
}

} // verus!
