//! Pure mixing arithmetic of the construction: assigning a fingerprint to a
//! bucket (with a skewed distribution) and combining a fingerprint with a
//! pilot value into a table slot.  Every function is pinned to a spec
//! function, so the query side provably recomputes what the build side
//! placed.
use vstd::prelude::*;
use crate::hashing::{wmul, Fingerprint};

verus! {

/// Fingerprints below this threshold (roughly 60% of the 64-bit space) fall
/// into the dense front zone of buckets.
pub const SKEW_THRESHOLD: u64 = 0x9999_9999_9999_999a;

/// Largest bucket count and table size the builder accepts (`2^48`).
pub const MAX_SIZE: u64 = 0x1_0000_0000_0000;

/// A 64-bit finalizer mix (multiply-xor-shift chain).
#[verifier::opaque]
pub open spec fn spec_mix64(x: u64) -> u64 {
    let a = wmul(x ^ (x >> 33), 0xff51_afd7_ed55_8ccd);
    let b = wmul(a ^ (a >> 33), 0xc4ce_b9fe_1a85_ec53);
    b ^ (b >> 33)
}

/// Computes [`spec_mix64`].
pub fn mix64(x: u64) -> (r: u64)
    ensures
        r == spec_mix64(x),
{
    proof {
        reveal(spec_mix64);
    }
    let a = (x ^ (x >> 33u64)).wrapping_mul(0xff51_afd7_ed55_8ccd);
    let b = (a ^ (a >> 33u64)).wrapping_mul(0xc4ce_b9fe_1a85_ec53);
    b ^ (b >> 33u64)
}

/// The bucket of a fingerprint: about 30% of the buckets (the front zone)
/// receive the roughly 60% of fingerprints below [`SKEW_THRESHOLD`]; the
/// rest go to the back zone.  A pure function of `(h, num_buckets)`.
#[verifier::opaque]
pub open spec fn spec_bucket_of(h: u64, num_buckets: u64) -> u64 {
    if num_buckets == 0 {
        0
    } else {
        let front = ((3 * (num_buckets as int)) / 10) as u64;
        if front == 0 || front == num_buckets {
            spec_mix64(h) % num_buckets
        } else if h < SKEW_THRESHOLD {
            spec_mix64(h) % front
        } else {
            (front + spec_mix64(h) % ((num_buckets - front) as u64)) as u64
        }
    }
}

/// Computes [`spec_bucket_of`]; the result is always below `num_buckets`.
pub fn bucket_of(h: u64, num_buckets: u64) -> (r: u64)
    requires
        1 <= num_buckets <= MAX_SIZE,
    ensures
        r == spec_bucket_of(h, num_buckets),
        r < num_buckets,
{
    proof {
        reveal(spec_bucket_of);
    }
    let front = (3 * num_buckets) / 10;
    if front == 0 || front == num_buckets {
        mix64(h) % num_buckets
    } else if h < SKEW_THRESHOLD {
        mix64(h) % front
    } else {
        front + mix64(h) % (num_buckets - front)
    }
}

/// Bucket ids always lie below the bucket count.
pub broadcast proof fn lemma_bucket_of_in_range(h: u64, num_buckets: u64)
    requires
        num_buckets >= 1,
    ensures
        #[trigger] spec_bucket_of(h, num_buckets) < num_buckets,
{
    reveal(spec_bucket_of);
}

/// The slot of a fingerprint under a pilot, reduced modulo the table size:
/// a cheap secondary mix combining the fingerprint's second half with a
/// mixed pilot.
#[verifier::opaque]
pub open spec fn spec_slot_of(h2: u64, pilot: u64, table_size: u64) -> u64 {
    if table_size == 0 {
        0
    } else {
        spec_mix64(h2 ^ spec_mix64(pilot)) % table_size
    }
}

/// Computes [`spec_slot_of`]; the result is always below `table_size`.
pub fn slot_of(h2: u64, pilot: u64, table_size: u64) -> (r: u64)
    requires
        table_size >= 1,
    ensures
        r == spec_slot_of(h2, pilot, table_size),
        r < table_size,
{
    proof {
        reveal(spec_slot_of);
    }
    mix64(h2 ^ mix64(pilot)) % table_size
}

/// A slot is always inside the table.
pub broadcast proof fn lemma_slot_of_in_range(h2: u64, pilot: u64, table_size: u64)
    requires
        table_size >= 1,
    ensures
        #[trigger] spec_slot_of(h2, pilot, table_size) < table_size,
{
    reveal(spec_slot_of);
}

/// The raw (pre-remap) table slot a whole fingerprint maps to under a pilot
/// sequence.
pub open spec fn spec_raw_slot(pilots: Seq<u64>, num_buckets: u64, table_size: u64,
    fp: Fingerprint) -> u64 {
    spec_slot_of(fp.second, pilots[spec_bucket_of(fp.first, num_buckets) as int], table_size)
}

} // verus!
