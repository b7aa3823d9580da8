//! The pilot search: fingerprints are grouped by bucket, buckets are
//! processed from largest to smallest (ties by ascending bucket id), and for
//! each bucket the smallest pilot is found that sends every member to a
//! distinct free slot of the table.  On success the slot assignment is a
//! provably injective map from key indices into the table.
use vstd::prelude::*;
use crate::bucketing::{bucket_of, slot_of, spec_bucket_of, spec_raw_slot, spec_slot_of, MAX_SIZE};
use crate::hashing::Fingerprint;
use crate::BuildError;

verus! {

broadcast use crate::bucketing::lemma_bucket_of_in_range, crate::bucketing::lemma_slot_of_in_range;

/// Bound on the pilot search per bucket; exceeding it fails the attempt.
pub const PILOT_LIMIT: u64 = 0x10000;

/// Number of `true` entries of `s` in the index range `[a, b)`.
pub open spec fn cnt(s: Seq<bool>, a: int, b: int) -> int
    decreases b - a,
{
    if b <= a {
        0
    } else {
        cnt(s, a, b - 1) + if s[b - 1] {
            1int
        } else {
            0int
        }
    }
}

pub proof fn lemma_cnt_bounds(s: Seq<bool>, a: int, b: int)
    requires
        a <= b,
    ensures
        0 <= cnt(s, a, b) <= b - a,
    decreases b - a,
{
    if a < b {
        lemma_cnt_bounds(s, a, b - 1);
    }
}

pub proof fn lemma_cnt_split(s: Seq<bool>, a: int, b: int, c: int)
    requires
        a <= b <= c,
    ensures
        cnt(s, a, c) == cnt(s, a, b) + cnt(s, b, c),
    decreases c - b,
{
    if b < c {
        lemma_cnt_split(s, a, b, c - 1);
    }
}

/// A point update changes a range count only when the point lies inside.
pub proof fn lemma_cnt_update(s: Seq<bool>, i: int, v: bool, a: int, b: int)
    requires
        0 <= a <= b <= s.len(),
        0 <= i < s.len(),
    ensures
        cnt(s.update(i, v), a, b) == cnt(s, a, b) + (if a <= i < b {
            (if v {
                1int
            } else {
                0int
            }) - (if s[i] {
                1int
            } else {
                0int
            })
        } else {
            0int
        }),
    decreases b - a,
{
    if a < b {
        lemma_cnt_update(s, i, v, a, b - 1);
    }
}

/// A range of all-true entries counts its own length.
pub proof fn lemma_cnt_full(s: Seq<bool>, a: int, b: int)
    requires
        a <= b,
        forall|x: int| a <= x < b ==> s[x],
    ensures
        cnt(s, a, b) == b - a,
    decreases b - a,
{
    if a < b {
        lemma_cnt_full(s, a, b - 1);
    }
}

/// Conversely, a full count forces every entry in the range to be true.
pub proof fn lemma_cnt_all_true(s: Seq<bool>, a: int, b: int)
    requires
        a <= b,
        cnt(s, a, b) == b - a,
    ensures
        forall|x: int| a <= x < b ==> s[x],
    decreases b - a,
{
    if a < b {
        lemma_cnt_bounds(s, a, b - 1);
        lemma_cnt_all_true(s, a, b - 1);
    }
}

/// An all-false range counts zero.
pub proof fn lemma_cnt_of_all_false(s: Seq<bool>, a: int, b: int)
    requires
        forall|x: int| a <= x < b ==> !s[x],
    ensures
        cnt(s, a, b) == 0,
    decreases b - a,
{
    if a < b {
        lemma_cnt_of_all_false(s, a, b - 1);
    }
}

/// In a strictly increasing sequence the `k`-th entry is at least `k`.
proof fn lemma_strict_inc_at_least(s: Seq<usize>, k: int)
    requires
        forall|k1: int, k2: int| 0 <= k1 < k2 < s.len() ==> #[trigger] s[k1] < #[trigger] s[k2],
        0 <= k < s.len(),
    ensures
        s[k] >= k,
    decreases k,
{
    if k > 0 {
        lemma_strict_inc_at_least(s, k - 1);
        assert(s[k - 1] < s[k]);
    }
}

/// A strictly increasing sequence of values below `bound` has at most
/// `bound` entries.
proof fn lemma_strict_inc_len(s: Seq<usize>, bound: int)
    requires
        0 <= bound,
        forall|k1: int, k2: int| 0 <= k1 < k2 < s.len() ==> #[trigger] s[k1] < #[trigger] s[k2],
        forall|k: int| 0 <= k < s.len() ==> #[trigger] s[k] < bound,
    ensures
        s.len() <= bound,
{
    if s.len() > 0 {
        lemma_strict_inc_at_least(s, s.len() - 1);
    }
}

/// The raw slot of key `i` of `fps` under the current pilot sequence.
pub open spec fn raw_of(pilots: Seq<u64>, num_buckets: u64, table_size: u64,
    fps: Seq<Fingerprint>, i: int) -> u64 {
    spec_raw_slot(pilots, num_buckets, table_size, fps[i])
}

/// The master invariant of the search: keys whose bucket is done occupy
/// pairwise distinct slots, occupied slots all have a done owner, and the
/// occupied count matches the done-key count.
pub open spec fn search_inv(fps: Seq<Fingerprint>, num_buckets: u64, table_size: u64,
    pilots: Seq<u64>, taken: Seq<bool>, done_b: Seq<bool>, done_k: Seq<bool>) -> bool {
    &&& pilots.len() == num_buckets
    &&& taken.len() == table_size
    &&& done_b.len() == num_buckets
    &&& done_k.len() == fps.len()
    &&& forall|b: int| 0 <= b < num_buckets ==> #[trigger] pilots[b] <= PILOT_LIMIT
    &&& forall|i: int|
        0 <= i < fps.len() ==> (#[trigger] done_k[i] == done_b[spec_bucket_of(fps[i].first,
            num_buckets) as int])
    &&& forall|i: int|
        0 <= i < fps.len() && done_k[i] ==> raw_of(pilots, num_buckets, table_size, fps, i)
            < table_size && taken[#[trigger] raw_of(pilots, num_buckets, table_size, fps,
            i) as int]
    &&& forall|i: int, j: int|
        0 <= i < fps.len() && 0 <= j < fps.len() && i != j && #[trigger] done_k[i]
            && #[trigger] done_k[j] ==> raw_of(pilots, num_buckets, table_size, fps, i) != raw_of(
            pilots, num_buckets, table_size, fps, j)
    &&& forall|p: int|
        0 <= p < table_size && #[trigger] taken[p] ==> exists|i: int|
            0 <= i < fps.len() && done_k[i] && raw_of(pilots, num_buckets, table_size, fps, i) == p
    &&& cnt(taken, 0, table_size as int) == cnt(done_k, 0, fps.len() as int)
}

/// A vector of `len` entries all equal to `v`.
pub fn make_filled_bools(len: usize, v: bool) -> (r: Vec<bool>)
    ensures
        r@.len() == len,
        forall|i: int| 0 <= i < len ==> r@[i] == v,
{
    let mut r: Vec<bool> = Vec::new();
    let mut i: usize = 0;
    while i < len
        invariant
            i <= len,
            r@.len() == i,
            forall|k: int| 0 <= k < i ==> r@[k] == v,
        decreases len - i,
    {
        r.push(v);
        i = i + 1;
    }
    r
}

/// A vector of `len` zeros.
pub fn make_zeros(len: usize) -> (r: Vec<u64>)
    ensures
        r@.len() == len,
        forall|i: int| 0 <= i < len ==> r@[i] == 0,
{
    let mut r: Vec<u64> = Vec::new();
    let mut i: usize = 0;
    while i < len
        invariant
            i <= len,
            r@.len() == i,
            forall|k: int| 0 <= k < i ==> r@[k] == 0,
        decreases len - i,
    {
        r.push(0);
        i = i + 1;
    }
    r
}

/// Linear membership scan.
fn contains_u64(v: &Vec<u64>, x: u64) -> (r: bool)
    ensures
        r == v@.contains(x),
{
    let mut i: usize = 0;
    while i < v.len()
        invariant
            i <= v@.len(),
            forall|k: int| 0 <= k < i ==> v@[k] != x,
        decreases v@.len() - i,
    {
        if v[i] == x {
            return true;
        }
        i = i + 1;
    }
    false
}

/// Groups key indices by bucket.  Each inner list is strictly increasing,
/// holds only keys of its bucket, and every key appears in its bucket's
/// list.
#[verifier::rlimit(100)]
#[verifier::loop_isolation(false)]
fn group_buckets(fps: &Vec<Fingerprint>, num_buckets: u64) -> (r: (Vec<Vec<usize>>, Ghost<
    Seq<int>,
>))
    requires
        1 <= num_buckets <= MAX_SIZE,
        num_buckets <= usize::MAX,
    ensures
        r.0@.len() == num_buckets,
        forall|b: int| 0 <= b < num_buckets ==> #[trigger] r.0@[b]@.len() <= fps@.len(),
        forall|b: int, k: int|
            0 <= b < num_buckets && 0 <= k < r.0@[b]@.len() ==> #[trigger] r.0@[b]@[k] < fps@.len()
                && spec_bucket_of(fps@[r.0@[b]@[k] as int].first, num_buckets) == b,
        forall|b: int, k1: int, k2: int|
            0 <= b < num_buckets && 0 <= k1 < k2 < r.0@[b]@.len() ==> #[trigger] r.0@[b]@[k1]
                < #[trigger] r.0@[b]@[k2],
        r.1@.len() == fps@.len(),
        forall|i: int|
            #![trigger r.1@[i]]
            0 <= i < fps@.len() ==> 0 <= r.1@[i]
                < r.0@[spec_bucket_of(fps@[i].first, num_buckets) as int]@.len()
                && r.0@[spec_bucket_of(fps@[i].first, num_buckets) as int]@[r.1@[i]] == i,
{
    let nb = num_buckets as usize;
    let mut r: Vec<Vec<usize>> = Vec::new();
    let mut b: usize = 0;
    while b < nb
        invariant
            b <= nb,
            r@.len() == b,
            forall|k: int| 0 <= k < b ==> r@[k]@.len() == 0,
        decreases nb - b,
    {
        r.push(Vec::new());
        b = b + 1;
    }
    let n = fps.len();
    let ghost mut pos: Seq<int> = Seq::new(n as nat, |i: int| 0int);
    let mut i: usize = 0;
    while i < n
        invariant
            i <= n,
            r@.len() == num_buckets,
            pos.len() == n,
            forall|bb: int, k: int|
                0 <= bb < num_buckets && 0 <= k < r@[bb]@.len() ==> #[trigger] r@[bb]@[k] < i
                    && spec_bucket_of(fps@[r@[bb]@[k] as int].first, num_buckets) == bb,
            forall|bb: int, k1: int, k2: int|
                0 <= bb < num_buckets && 0 <= k1 < k2 < r@[bb]@.len() ==> #[trigger] r@[bb]@[k1]
                    < #[trigger] r@[bb]@[k2],
            forall|ii: int|
                #![trigger pos[ii]]
                0 <= ii < i ==> 0 <= pos[ii]
                    < r@[spec_bucket_of(fps@[ii].first, num_buckets) as int]@.len()
                    && r@[spec_bucket_of(fps@[ii].first, num_buckets) as int]@[pos[ii]] == ii,
        decreases n - i,
    {
        let fp = fps[i];
        let b = bucket_of(fp.first, num_buckets) as usize;
        let ghost old_r = r@;
        r[b].push(i);
        proof {
            let bi = b as int;
            assert(r@[bi]@ == old_r[bi]@.push(i as usize));
            assert(forall|bb: int| 0 <= bb < num_buckets && bb != bi ==> r@[bb] == old_r[bb]);
            pos = pos.update(i as int, old_r[bi]@.len() as int);
            assert(r@[bi]@[old_r[bi]@.len() as int] == i);
            assert forall|ii: int| #![trigger pos[ii]] 0 <= ii < i + 1 implies 0 <= pos[ii]
                < r@[spec_bucket_of(fps@[ii].first, num_buckets) as int]@.len()
                && r@[spec_bucket_of(fps@[ii].first, num_buckets) as int]@[pos[ii]] == ii by {
                let bb = spec_bucket_of(fps@[ii].first, num_buckets) as int;
                if ii < i {
                    if bb == bi {
                        assert(r@[bi]@[pos[ii]] == old_r[bi]@[pos[ii]]);
                    }
                }
            }
        }
        i = i + 1;
    }
    proof {
        assert forall|b: int| 0 <= b < num_buckets implies #[trigger] r@[b]@.len()
            <= fps@.len() by {
            lemma_strict_inc_len(r@[b]@, fps@.len() as int);
        }
    }
    (r, Ghost(pos))
}

/// Distributes bucket ids into groups by bucket size.  Group `s` holds, in
/// ascending order, exactly the buckets of size `s`.
#[verifier::rlimit(100)]
#[verifier::loop_isolation(false)]
fn build_size_groups(buckets: &Vec<Vec<usize>>) -> (r: (Vec<Vec<u64>>, Ghost<Seq<int>>))
    requires
        buckets@.len() >= 1,
        forall|b: int| 0 <= b < buckets@.len() ==> #[trigger] buckets@[b]@.len() < usize::MAX,
    ensures
        r.0@.len() >= 1,
        forall|s: int, k: int|
            0 <= s < r.0@.len() && 0 <= k < r.0@[s]@.len() ==> #[trigger] r.0@[s]@[k]
                < buckets@.len() && buckets@[r.0@[s]@[k] as int]@.len() == s,
        forall|s: int, k1: int, k2: int|
            0 <= s < r.0@.len() && 0 <= k1 < k2 < r.0@[s]@.len() ==> #[trigger] r.0@[s]@[k1]
                < #[trigger] r.0@[s]@[k2],
        r.1@.len() == buckets@.len(),
        forall|b: int|
            #![trigger r.1@[b]]
            0 <= b < buckets@.len() ==> buckets@[b]@.len() < r.0@.len() && 0 <= r.1@[b]
                < r.0@[buckets@[b]@.len() as int]@.len()
                && r.0@[buckets@[b]@.len() as int]@[r.1@[b]] == b,
{
    let nb = buckets.len();
    let mut max_size: usize = 0;
    let mut b: usize = 0;
    while b < nb
        invariant
            b <= nb,
            nb == buckets@.len(),
            max_size < usize::MAX,
            forall|bb: int| 0 <= bb < nb ==> #[trigger] buckets@[bb]@.len() < usize::MAX,
            forall|k: int| 0 <= k < b ==> buckets@[k]@.len() <= max_size,
        decreases nb - b,
    {
        let s = buckets[b].len();
        if s > max_size {
            max_size = s;
        }
        b = b + 1;
    }
    let mut r: Vec<Vec<u64>> = Vec::new();
    let mut s: usize = 0;
    while s < max_size + 1
        invariant
            s <= max_size + 1,
            max_size < usize::MAX,
            r@.len() == s,
            forall|k: int| 0 <= k < s ==> r@[k]@.len() == 0,
        decreases max_size + 1 - s,
    {
        r.push(Vec::new());
        s = s + 1;
    }
    let ghost mut gpos: Seq<int> = Seq::new(nb as nat, |b: int| 0int);
    let mut b: usize = 0;
    while b < nb
        invariant
            b <= nb,
            nb == buckets@.len(),
            r@.len() == max_size + 1,
            gpos.len() == nb,
            forall|k: int| 0 <= k < nb ==> buckets@[k]@.len() <= max_size,
            forall|ss: int, k: int|
                0 <= ss < r@.len() && 0 <= k < r@[ss]@.len() ==> #[trigger] r@[ss]@[k] < b
                    && buckets@[r@[ss]@[k] as int]@.len() == ss,
            forall|ss: int, k1: int, k2: int|
                0 <= ss < r@.len() && 0 <= k1 < k2 < r@[ss]@.len() ==> #[trigger] r@[ss]@[k1]
                    < #[trigger] r@[ss]@[k2],
            forall|bb: int|
                #![trigger gpos[bb]]
                0 <= bb < b ==> 0 <= gpos[bb] < r@[buckets@[bb]@.len() as int]@.len()
                    && r@[buckets@[bb]@.len() as int]@[gpos[bb]] == bb,
        decreases nb - b,
    {
        let s = buckets[b].len();
        let ghost old_r = r@;
        r[s].push(b as u64);
        proof {
            let si = s as int;
            assert(r@[si]@ == old_r[si]@.push(b as u64));
            assert(forall|ss: int| 0 <= ss < r@.len() && ss != si ==> r@[ss] == old_r[ss]);
            gpos = gpos.update(b as int, old_r[si]@.len() as int);
            assert(r@[si]@[old_r[si]@.len() as int] == b);
            assert forall|bb: int| #![trigger gpos[bb]] 0 <= bb < b + 1 implies 0 <= gpos[bb]
                < r@[buckets@[bb]@.len() as int]@.len()
                && r@[buckets@[bb]@.len() as int]@[gpos[bb]] == bb by {
                let ss = buckets@[bb]@.len() as int;
                if bb < b {
                    if ss == si {
                        assert(r@[si]@[gpos[bb]] == old_r[si]@[gpos[bb]]);
                    }
                }
            }
        }
        b = b + 1;
    }
    (r, Ghost(gpos))
}

/// Tries one pilot for one bucket: returns the slots of its keys when they
/// are pairwise distinct and all currently free.
#[verifier::loop_isolation(false)]
fn try_pilot(fps: &Vec<Fingerprint>, keys: &Vec<usize>, pilot: u64, table_size: u64,
    taken: &Vec<bool>) -> (r: Option<Vec<u64>>)
    requires
        1 <= table_size <= usize::MAX,
        taken@.len() == table_size,
        forall|k: int| 0 <= k < keys@.len() ==> #[trigger] keys@[k] < fps@.len(),
    ensures
        r matches Some(positions) ==> {
            &&& positions@.len() == keys@.len()
            &&& forall|k: int|
                0 <= k < keys@.len() ==> #[trigger] positions@[k] == spec_slot_of(
                    fps@[keys@[k] as int].second, pilot, table_size)
            &&& forall|k: int| 0 <= k < keys@.len() ==> #[trigger] positions@[k] < table_size
            &&& forall|k: int|
                0 <= k < keys@.len() ==> !taken@[#[trigger] positions@[k] as int]
            &&& forall|k1: int, k2: int|
                0 <= k1 < k2 < keys@.len() ==> #[trigger] positions@[k1] != #[trigger] positions@[
                k2]
        },
{
    let mut positions: Vec<u64> = Vec::new();
    let mut k: usize = 0;
    while k < keys.len()
        invariant
            k <= keys@.len(),
            positions@.len() == k,
            forall|kk: int|
                0 <= kk < k ==> #[trigger] positions@[kk] == spec_slot_of(
                    fps@[keys@[kk] as int].second, pilot, table_size),
            forall|kk: int| 0 <= kk < k ==> #[trigger] positions@[kk] < table_size,
            forall|kk: int| 0 <= kk < k ==> !taken@[#[trigger] positions@[kk] as int],
            forall|k1: int, k2: int|
                0 <= k1 < k2 < k ==> #[trigger] positions@[k1] != #[trigger] positions@[k2],
        decreases keys@.len() - k,
    {
        let key = keys[k];
        let pos = slot_of(fps[key].second, pilot, table_size);
        if taken[pos as usize] {
            return None;
        }
        if contains_u64(&positions, pos) {
            return None;
        }
        proof {
            assert(forall|kk: int| 0 <= kk < k ==> positions@[kk] != pos);
        }
        positions.push(pos);
        proof {
            assert(positions@[k as int] == pos);
        }
        k = k + 1;
    }
    Some(positions)
}

/// Finds a pilot for one bucket and places its keys, preserving the master
/// invariant.  Returns the updated done-key map, or `None` when every pilot
/// up to [`PILOT_LIMIT`] fails; failure leaves the state untouched.
#[verifier::rlimit(100)]
#[verifier::loop_isolation(false)]
fn place_bucket(fps: &Vec<Fingerprint>, keys: &Vec<usize>, b: u64, num_buckets: u64,
    table_size: u64, pilots: &mut Vec<u64>, taken: &mut Vec<bool>, Ghost(done_b): Ghost<Seq<bool>>,
    Ghost(done_k): Ghost<Seq<bool>>) -> (r: Option<Ghost<Seq<bool>>>)
    requires
        1 <= num_buckets <= usize::MAX,
        1 <= table_size <= usize::MAX,
        b < num_buckets,
        search_inv(fps@, num_buckets, table_size, old(pilots)@, old(taken)@, done_b, done_k),
        !done_b[b as int],
        forall|k: int| 0 <= k < keys@.len() ==> #[trigger] keys@[k] < fps@.len(),
        forall|k: int|
            0 <= k < keys@.len() ==> spec_bucket_of(fps@[#[trigger] keys@[k] as int].first,
                num_buckets) == b,
        forall|k1: int, k2: int|
            0 <= k1 < k2 < keys@.len() ==> #[trigger] keys@[k1] < #[trigger] keys@[k2],
        forall|i: int|
            #![trigger fps@[i]]
            0 <= i < fps@.len() && spec_bucket_of(fps@[i].first, num_buckets) == b ==> exists|
                k: int|
                0 <= k < keys@.len() && keys@[k] == i,
    ensures
        final(pilots)@.len() == num_buckets,
        final(taken)@.len() == table_size,
        r matches Some(done_k1) ==> {
            &&& search_inv(fps@, num_buckets, table_size, final(pilots)@, final(taken)@,
                done_b.update(b as int, true), done_k1@)
            &&& forall|bb: int|
                0 <= bb < num_buckets && bb != b ==> final(pilots)@[bb] == old(pilots)@[bb]
        },
        r is None ==> final(pilots)@ == old(pilots)@ && final(taken)@ == old(taken)@,
{
    let ghost n = fps@.len() as int;
    let ghost m = table_size as int;
    let mut pilot: u64 = 0;
    let mut found: Option<Vec<u64>> = None;
    while found.is_none() && pilot <= PILOT_LIMIT
        invariant
            pilot <= PILOT_LIMIT + 1,
            taken@ == old(taken)@,
            found matches Some(positions) ==> {
                &&& pilot <= PILOT_LIMIT
                &&& positions@.len() == keys@.len()
                &&& forall|kk: int|
                    0 <= kk < positions@.len() ==> #[trigger] positions@[kk] == spec_slot_of(
                        fps@[keys@[kk] as int].second, pilot, table_size)
                &&& forall|kk: int|
                    0 <= kk < positions@.len() ==> #[trigger] positions@[kk] < table_size
                &&& forall|kk: int|
                    0 <= kk < positions@.len() ==> !taken@[#[trigger] positions@[kk] as int]
                &&& forall|k1: int, k2: int|
                    0 <= k1 < k2 < positions@.len() ==> #[trigger] positions@[k1]
                        != #[trigger] positions@[k2]
            },
        decreases PILOT_LIMIT + 2 - pilot - (if found.is_some() {
            1int
        } else {
            0int
        }),
    {
        let attempt = try_pilot(fps, keys, pilot, table_size, taken);
        match attempt {
            Some(positions) => {
                found = Some(positions);
            },
            None => {
                pilot = pilot + 1;
            },
        }
    }
    match found {
        None => None,
        Some(positions) => {
            let ghost taken0 = taken@;
            let ghost done_k0 = done_k;
            let ghost pilots0 = pilots@;
            let ghost ks = keys@;
            let ghost mut done_k1 = done_k;
            proof {
                assert forall|kk: int| 0 <= kk < ks.len() implies !done_k0[#[trigger] ks[
                    kk] as int] by {
                    assert(spec_bucket_of(fps@[ks[kk] as int].first, num_buckets) == b as int);
                }
            }
            let mut j: usize = 0;
            while j < positions.len()
                invariant
                    j <= positions@.len(),
                    taken@.len() == table_size,
                    done_k1.len() == n,
                    forall|p: int|
                        0 <= p < m ==> (#[trigger] taken@[p] <==> (taken0[p] || exists|kk: int|
                            0 <= kk < j && positions@[kk] == p)),
                    forall|i: int|
                        0 <= i < n ==> (#[trigger] done_k1[i] <==> (done_k0[i] || exists|kk: int|
                            0 <= kk < j && ks[kk] == i)),
                    cnt(taken@, 0, m) == cnt(taken0, 0, m) + j,
                    cnt(done_k1, 0, n) == cnt(done_k0, 0, n) + j,
                decreases positions@.len() - j,
            {
                let pos = positions[j];
                let key = keys[j];
                proof {
                    assert(ks[j as int] == key);
                    assert(!taken@[pos as int]) by {
                        assert(!taken0[pos as int]);
                        assert(forall|kk: int| 0 <= kk < j ==> positions@[kk] != pos);
                    }
                    assert(!done_k1[key as int]) by {
                        assert(!done_k0[key as int]);
                        assert(forall|kk: int| 0 <= kk < j ==> ks[kk] != key);
                    }
                    lemma_cnt_update(taken@, pos as int, true, 0, m);
                    lemma_cnt_update(done_k1, key as int, true, 0, n);
                }
                let ghost taken_pre = taken@;
                let ghost done_pre = done_k1;
                taken[pos as usize] = true;
                proof {
                    done_k1 = done_k1.update(key as int, true);
                    assert forall|p: int| 0 <= p < m implies (#[trigger] taken@[p] <==> (taken0[p]
                        || exists|kk: int| 0 <= kk < j + 1 && positions@[kk] == p)) by {
                        if p == pos {
                            assert(positions@[j as int] == p);
                        } else {
                            assert(taken@[p] == taken_pre[p]);
                            if exists|kk: int| 0 <= kk < j + 1 && positions@[kk] == p {
                                let kk = choose|kk: int| 0 <= kk < j + 1 && positions@[kk] == p;
                                assert(kk < j);
                            }
                        }
                    }
                    assert forall|i: int| 0 <= i < n implies (#[trigger] done_k1[i] <==> (done_k0[i]
                        || exists|kk: int| 0 <= kk < j + 1 && ks[kk] == i)) by {
                        if i == key {
                            assert(ks[j as int] == i);
                        } else {
                            assert(done_k1[i] == done_pre[i]);
                            if exists|kk: int| 0 <= kk < j + 1 && ks[kk] == i {
                                let kk = choose|kk: int| 0 <= kk < j + 1 && ks[kk] == i;
                                assert(kk < j);
                            }
                        }
                    }
                }
                j = j + 1;
            }
            pilots[b as usize] = pilot;
            proof {
                lemma_place_bucket(fps@, num_buckets, table_size, pilots0, pilots@, taken0, taken@,
                    done_b, done_k0, done_k1, b, pilot, positions@, ks);
            }
            Some(Ghost(done_k1))
        },
    }
}

/// Re-establishes the master invariant after one bucket is placed.
#[verifier::rlimit(100)]
proof fn lemma_place_bucket(fps: Seq<Fingerprint>, num_buckets: u64, table_size: u64,
    pilots0: Seq<u64>, pilots1: Seq<u64>, taken0: Seq<bool>, taken1: Seq<bool>, done_b: Seq<bool>,
    done_k0: Seq<bool>, done_k1: Seq<bool>, b: u64, pilot: u64, positions: Seq<u64>,
    ks: Seq<usize>)
    requires
        1 <= num_buckets,
        1 <= table_size,
        b < num_buckets,
        pilot <= PILOT_LIMIT,
        search_inv(fps, num_buckets, table_size, pilots0, taken0, done_b, done_k0),
        !done_b[b as int],
        pilots1 == pilots0.update(b as int, pilot),
        taken1.len() == table_size,
        done_k1.len() == fps.len(),
        forall|k: int| 0 <= k < ks.len() ==> #[trigger] ks[k] < fps.len(),
        forall|k: int|
            0 <= k < ks.len() ==> spec_bucket_of(fps[#[trigger] ks[k] as int].first, num_buckets)
                == b,
        forall|k1: int, k2: int| 0 <= k1 < k2 < ks.len() ==> #[trigger] ks[k1] < #[trigger] ks[k2],
        forall|i: int|
            #![trigger fps[i]]
            0 <= i < fps.len() && spec_bucket_of(fps[i].first, num_buckets) == b ==> exists|k: int|
                0 <= k < ks.len() && ks[k] == i,
        positions.len() == ks.len(),
        forall|kk: int|
            0 <= kk < ks.len() ==> #[trigger] positions[kk] == spec_slot_of(
                fps[ks[kk] as int].second, pilot, table_size),
        forall|kk: int| 0 <= kk < ks.len() ==> #[trigger] positions[kk] < table_size,
        forall|kk: int| 0 <= kk < ks.len() ==> !taken0[#[trigger] positions[kk] as int],
        forall|k1: int, k2: int|
            0 <= k1 < k2 < ks.len() ==> #[trigger] positions[k1] != #[trigger] positions[k2],
        forall|p: int|
            0 <= p < table_size ==> (#[trigger] taken1[p] <==> (taken0[p] || exists|kk: int|
                0 <= kk < ks.len() && positions[kk] == p)),
        forall|i: int|
            0 <= i < fps.len() ==> (#[trigger] done_k1[i] <==> (done_k0[i] || exists|kk: int|
                0 <= kk < ks.len() && ks[kk] == i)),
        cnt(taken1, 0, table_size as int) == cnt(taken0, 0, table_size as int) + ks.len(),
        cnt(done_k1, 0, fps.len() as int) == cnt(done_k0, 0, fps.len() as int) + ks.len(),
    ensures
        search_inv(fps, num_buckets, table_size, pilots1, taken1, done_b.update(b as int, true),
            done_k1),
{
    let n = fps.len() as int;
    let m = table_size as int;
    let bi = b as int;
    let done_b1 = done_b.update(bi, true);
    assert forall|kk: int| 0 <= kk < ks.len() implies !done_k0[#[trigger] ks[kk] as int] by {
        assert(spec_bucket_of(fps[ks[kk] as int].first, num_buckets) == bi);
    }
    // raw slots of previously done keys are unchanged and occupied already
    assert forall|i: int| 0 <= i < n && done_k0[i] implies raw_of(pilots1, num_buckets, table_size,
        fps, i) == raw_of(pilots0, num_buckets, table_size, fps, i) && taken0[raw_of(pilots0,
        num_buckets, table_size, fps, i) as int] by {
        let bx = spec_bucket_of(fps[i].first, num_buckets) as int;
        assert(done_b[bx]);
        assert(bx != bi);
        assert(pilots1[bx] == pilots0[bx]);
    }
    // raw slots of the newly placed keys are their positions
    assert forall|kk: int| 0 <= kk < ks.len() implies raw_of(pilots1, num_buckets, table_size, fps,
        ks[kk] as int) == positions[kk] by {
        assert(spec_bucket_of(fps[ks[kk] as int].first, num_buckets) == bi);
        assert(pilots1[bi] == pilot);
    }
    // done keys match done buckets again
    assert forall|i: int| 0 <= i < n implies (#[trigger] done_k1[i] == done_b1[spec_bucket_of(
        fps[i].first, num_buckets) as int]) by {
        let bx = spec_bucket_of(fps[i].first, num_buckets) as int;
        if bx == bi {
            let kk = choose|kk: int| 0 <= kk < ks.len() && ks[kk] == i;
            assert(done_k1[i]);
        } else {
            if done_k1[i] && !done_k0[i] {
                let kk = choose|kk: int| 0 <= kk < ks.len() && ks[kk] == i;
                assert(spec_bucket_of(fps[ks[kk] as int].first, num_buckets) == bi);
            }
        }
    }
    // every done key occupies its slot
    assert forall|i: int| 0 <= i < n && done_k1[i] implies taken1[#[trigger] raw_of(pilots1,
        num_buckets, table_size, fps, i) as int] by {
        if done_k0[i] {
            assert(taken0[raw_of(pilots1, num_buckets, table_size, fps, i) as int]);
        } else {
            let kk = choose|kk: int| 0 <= kk < ks.len() && ks[kk] == i;
            assert(raw_of(pilots1, num_buckets, table_size, fps, i) == positions[kk]);
        }
    }
    // injectivity among done keys
    assert forall|i: int, j: int|
        0 <= i < n && 0 <= j < n && i != j && #[trigger] done_k1[i] && #[trigger] done_k1[j] implies
        raw_of(pilots1, num_buckets, table_size, fps, i) != raw_of(pilots1, num_buckets,
        table_size, fps, j) by {
        if done_k0[i] && done_k0[j] {
        } else if done_k0[i] && !done_k0[j] {
            let kk = choose|kk: int| 0 <= kk < ks.len() && ks[kk] == j;
            assert(raw_of(pilots1, num_buckets, table_size, fps, j) == positions[kk]);
            assert(!taken0[positions[kk] as int]);
        } else if !done_k0[i] && done_k0[j] {
            let kk = choose|kk: int| 0 <= kk < ks.len() && ks[kk] == i;
            assert(raw_of(pilots1, num_buckets, table_size, fps, i) == positions[kk]);
            assert(!taken0[positions[kk] as int]);
        } else {
            let k1 = choose|kk: int| 0 <= kk < ks.len() && ks[kk] == i;
            let k2 = choose|kk: int| 0 <= kk < ks.len() && ks[kk] == j;
            assert(raw_of(pilots1, num_buckets, table_size, fps, i) == positions[k1]);
            assert(raw_of(pilots1, num_buckets, table_size, fps, j) == positions[k2]);
            assert(k1 != k2);
            if k1 < k2 {
                assert(positions[k1] != positions[k2]);
            } else {
                assert(positions[k2] != positions[k1]);
            }
        }
    }
    // every occupied slot has a done witness
    assert forall|p: int| 0 <= p < m && #[trigger] taken1[p] implies exists|i: int|
        0 <= i < n && done_k1[i] && raw_of(pilots1, num_buckets, table_size, fps, i) == p by {
        if taken0[p] {
            let i = choose|i: int|
                0 <= i < n && done_k0[i] && raw_of(pilots0, num_buckets, table_size, fps, i) == p;
            assert(done_k1[i]);
            assert(raw_of(pilots1, num_buckets, table_size, fps, i) == p);
        } else {
            let kk = choose|kk: int| 0 <= kk < ks.len() && positions[kk] == p;
            let i = ks[kk] as int;
            assert(done_k1[i]);
            assert(raw_of(pilots1, num_buckets, table_size, fps, i) == p);
        }
    }
    // pilot bounds
    assert forall|bb: int| 0 <= bb < num_buckets implies #[trigger] pilots1[bb] <= PILOT_LIMIT by {
        if bb != bi {
            assert(pilots1[bb] == pilots0[bb]);
        }
    }
}

/// What a successful search guarantees: one bounded pilot per bucket, every
/// key on its own slot, occupied slots exactly the keys' slots, and an
/// occupied count equal to the key count.
pub open spec fn search_ok(fps: Seq<Fingerprint>, num_buckets: u64, table_size: u64,
    pilots: Seq<u64>, taken: Seq<bool>) -> bool {
    &&& pilots.len() == num_buckets
    &&& taken.len() == table_size
    &&& forall|b: int| 0 <= b < num_buckets ==> #[trigger] pilots[b] <= PILOT_LIMIT
    &&& forall|i: int|
        0 <= i < fps.len() ==> raw_of(pilots, num_buckets, table_size, fps, i) < table_size
            && taken[#[trigger] raw_of(pilots, num_buckets, table_size, fps, i) as int]
    &&& forall|i: int, j: int|
        0 <= i < fps.len() && 0 <= j < fps.len() && i != j ==> raw_of(pilots, num_buckets,
            table_size, fps, i) != raw_of(pilots, num_buckets, table_size, fps, j)
    &&& forall|p: int|
        0 <= p < table_size && #[trigger] taken[p] ==> exists|i: int|
            0 <= i < fps.len() && raw_of(pilots, num_buckets, table_size, fps, i) == p
    &&& cnt(taken, 0, table_size as int) == fps.len()
}

/// The result of a successful pilot search.
pub struct SearchResult {
    /// One pilot per bucket.
    pub pilots: Vec<u64>,
    /// The occupied-slot map of the table.
    pub taken: Vec<bool>,
}

/// Searches a pilot for every bucket, largest buckets first (ties broken by
/// ascending bucket id).  On success, the raw slots of all keys are pairwise
/// distinct, exactly the occupied slots of `taken`, and the occupied count
/// equals the key count.
#[verifier::rlimit(100)]
#[verifier::loop_isolation(false)]
pub fn search_pilots(fps: &Vec<Fingerprint>, num_buckets: u64, table_size: u64) -> (r: Result<
    SearchResult,
    BuildError,
>)
    requires
        fps@.len() < usize::MAX,
        1 <= num_buckets <= MAX_SIZE,
        1 <= table_size <= MAX_SIZE,
        num_buckets <= usize::MAX,
        table_size <= usize::MAX,
    ensures
        r matches Ok(out) ==> search_ok(fps@, num_buckets, table_size, out.pilots@, out.taken@),
        r matches Err(e) ==> e == BuildError::SearchExhausted,
{
    let n = fps.len();
    let grouped = group_buckets(fps, num_buckets);
    let buckets = grouped.0;
    let ghost pos = grouped.1@;
    let sized = build_size_groups(&buckets);
    let groups = sized.0;
    let ghost gpos = sized.1@;
    let mut pilots: Vec<u64> = make_zeros(num_buckets as usize);
    let mut taken: Vec<bool> = make_filled_bools(table_size as usize, false);
    let ghost m = table_size as int;
    let ghost mut done_b: Seq<bool> = Seq::new(num_buckets as nat, |b: int| false);
    let ghost mut done_k: Seq<bool> = Seq::new(n as nat, |i: int| false);
    proof {
        lemma_cnt_of_all_false(taken@, 0, m);
        lemma_cnt_of_all_false(done_k, 0, n as int);
        assert forall|b: int| 0 <= b < num_buckets implies buckets@[b]@.len()
            < groups@.len() by {
            assert(0 <= gpos[b]);
        }
    }
    let mut s: usize = groups.len();
    while s > 1
        invariant
            1 <= s <= groups@.len(),
            search_inv(fps@, num_buckets, table_size, pilots@, taken@, done_b, done_k),
            forall|b: int|
                0 <= b < num_buckets ==> (#[trigger] done_b[b] <==> buckets@[b]@.len() >= s),
        decreases s,
    {
        s = s - 1;
        let group_len = groups[s].len();
        let mut k: usize = 0;
        while k < group_len
            invariant
                k <= group_len,
                search_inv(fps@, num_buckets, table_size, pilots@, taken@, done_b, done_k),
                forall|b: int|
                    0 <= b < num_buckets ==> (#[trigger] done_b[b] <==> (buckets@[b]@.len() > s || (
                    buckets@[b]@.len() == s && gpos[b] < k))),
            decreases group_len - k,
        {
            let b = groups[s][k];
            proof {
                assert(buckets@[b as int]@.len() == s);
                assert(gpos[b as int] == k) by {
                    assert(groups@[s as int]@[gpos[b as int]] == b);
                    assert(groups@[s as int]@[k as int] == b);
                    if gpos[b as int] < k {
                        assert(groups@[s as int]@[gpos[b as int]] < groups@[s as int]@[k as int]);
                    }
                    if k < gpos[b as int] {
                        assert(groups@[s as int]@[k as int] < groups@[s as int]@[gpos[b as int]]);
                    }
                }
                assert(!done_b[b as int]);
                assert forall|i: int|
                    #![trigger fps@[i]]
                    0 <= i < n && spec_bucket_of(fps@[i].first, num_buckets) == b implies exists|
                    kk: int|
                    0 <= kk < buckets@[b as int]@.len() && buckets@[b as int]@[kk] == i by {
                    let bb = spec_bucket_of(fps@[i].first, num_buckets) as int;
                    assert(bb == b as int);
                    assert(buckets@[bb]@[pos[i]] == i);
                }
            }
            let placed = place_bucket(fps, &buckets[b as usize], b, num_buckets, table_size,
                &mut pilots, &mut taken, Ghost(done_b), Ghost(done_k));
            match placed {
                None => {
                    return Err(BuildError::SearchExhausted);
                },
                Some(done_k1) => {
                    proof {
                        done_k = done_k1@;
                        let done_b0 = done_b;
                        done_b = done_b.update(b as int, true);
                        assert forall|bb: int| 0 <= bb < num_buckets implies (#[trigger] done_b[bb]
                            <==> (buckets@[bb]@.len() > s || (buckets@[bb]@.len() == s
                            && gpos[bb] < k + 1))) by {
                            if bb != b as int && buckets@[bb]@.len() == s && gpos[bb] == k {
                                assert(groups@[s as int]@[gpos[bb]] == bb);
                                assert(groups@[s as int]@[k as int] == b);
                            }
                        }
                    }
                },
            }
            k = k + 1;
        }
        proof {
            assert forall|b: int| 0 <= b < num_buckets implies (#[trigger] done_b[b]
                <==> buckets@[b]@.len() >= s) by {
                if buckets@[b]@.len() == s {
                    assert(gpos[b] < group_len);
                }
            }
        }
    }
    proof {
        assert forall|i: int| 0 <= i < n implies #[trigger] done_k[i] by {
            let bb = spec_bucket_of(fps@[i].first, num_buckets) as int;
            assert(buckets@[bb]@[pos[i]] == i);
            assert(buckets@[bb]@.len() >= 1);
            assert(done_b[bb]);
        }
        lemma_cnt_full(done_k, 0, n as int);
        assert(pilots@.len() == num_buckets);
        assert(taken@.len() == table_size);
        assert(forall|b: int| 0 <= b < num_buckets ==> #[trigger] pilots@[b] <= PILOT_LIMIT);
        assert forall|i: int|
            0 <= i < fps@.len() implies raw_of(pilots@, num_buckets, table_size, fps@, i)
            < table_size && taken@[#[trigger] raw_of(pilots@, num_buckets, table_size, fps@,
            i) as int] by {
            assert(done_k[i]);
        }
        assert forall|i: int, j: int|
            0 <= i < fps@.len() && 0 <= j < fps@.len() && i != j implies raw_of(pilots@,
            num_buckets, table_size, fps@, i) != raw_of(pilots@, num_buckets, table_size, fps@,
            j) by {
            assert(done_k[i]);
            assert(done_k[j]);
        }
        assert(forall|p: int|
            0 <= p < table_size && #[trigger] taken@[p] ==> exists|i: int|
                0 <= i < fps@.len() && raw_of(pilots@, num_buckets, table_size, fps@, i) == p);
        assert(cnt(taken@, 0, table_size as int) == fps@.len());
        assert(search_ok(fps@, num_buckets, table_size, pilots@, taken@));
    }
    Ok(SearchResult { pilots, taken })
}

} // verus!
