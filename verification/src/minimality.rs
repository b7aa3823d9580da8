//! Minimality: after a successful search the table has exactly `num_keys`
//! occupied slots out of `table_size >= num_keys`.  The free-slot map sends
//! each occupied out-of-range slot, in increasing order, to the next free
//! in-range slot, so that the composed function is a bijection onto
//! `[0, num_keys)`.  The [`Minimal`] and [`Nonminimal`] markers select the
//! behaviour at the type level.
use vstd::prelude::*;
use crate::search::{cnt, lemma_cnt_all_true, lemma_cnt_bounds, lemma_cnt_split};

verus! {

/// Marker trait choosing between a minimal and a non-minimal function.
pub trait Minimality {
    /// Whether the built function's range is exactly `[0, num_keys)`.
    spec fn spec_minimal() -> bool;

    /// Returns [`Self::spec_minimal`].
    fn minimal() -> (r: bool)
        ensures
            r == Self::spec_minimal(),
    ;
}

/// Type parameter of functions whose values fill `[0, num_keys)` exactly.
pub struct Minimal;

impl Minimality for Minimal {
    open spec fn spec_minimal() -> bool {
        true
    }

    fn minimal() -> (r: bool) {
        true
    }
}

/// Type parameter of functions whose values may spread over the whole table.
pub struct Nonminimal;

impl Minimality for Nonminimal {
    open spec fn spec_minimal() -> bool {
        false
    }

    fn minimal() -> (r: bool) {
        false
    }
}

/// Well-formedness of a free-slot map for a given occupancy: every entry is
/// an in-range value, entries of occupied out-of-range slots are free
/// in-range slots, strictly increasing, and every free in-range slot is hit.
pub open spec fn free_slots_ok(taken: Seq<bool>, num_keys: u64, r: Seq<u64>) -> bool {
    &&& r.len() == taken.len() - num_keys
    &&& forall|q: int| 0 <= q < r.len() ==> #[trigger] r[q] < num_keys
    &&& forall|p: int|
        num_keys <= p < taken.len() && taken[p] ==> !taken[#[trigger] r[p - num_keys] as int]
    &&& forall|p1: int, p2: int|
        num_keys <= p1 < p2 < taken.len() && taken[p1] && taken[p2] ==> #[trigger] r[p1
            - num_keys] < #[trigger] r[p2 - num_keys]
    &&& forall|v: int|
        0 <= v < num_keys && !taken[v] ==> exists|p: int|
            num_keys <= p < taken.len() && taken[p] && r[p - num_keys] == v
}

/// Builds the free-slot map: scanning slots `>= num_keys` in increasing
/// order, each occupied one is paired with the next free slot
/// `< num_keys`; unoccupied ones repeat the last valid pairing so that any
/// out-of-range lookup still lands in range.
#[verifier::rlimit(100)]
#[verifier::loop_isolation(false)]
pub fn fill_free_slots(taken: &Vec<bool>, num_keys: u64) -> (r: Vec<u64>)
    requires
        1 <= num_keys <= taken@.len(),
        cnt(taken@, 0, taken@.len() as int) == num_keys,
    ensures
        free_slots_ok(taken@, num_keys, r@),
{
    let m = taken.len();
    let nk = num_keys as usize;
    let ghost mi = m as int;
    let mut r: Vec<u64> = Vec::new();
    let mut c: usize = 0;
    let mut last: u64 = 0;
    let mut p: usize = nk;
    while p < m
        invariant
            nk <= p <= m,
            r@.len() == p - nk,
            c <= nk,
            last < num_keys,
            c - cnt(taken@, 0, c as int) == cnt(taken@, nk as int, p as int),
            forall|x: int|
                0 <= x < c && !taken@[x] ==> exists|pp: int|
                    nk <= pp < p && taken@[pp] && r@[pp - nk] == x,
            forall|pp: int|
                nk <= pp < p && taken@[pp] ==> #[trigger] r@[pp - nk] < c && !taken@[r@[pp
                    - nk] as int],
            forall|q: int| 0 <= q < r@.len() ==> #[trigger] r@[q] < num_keys,
            forall|p1: int, p2: int|
                nk <= p1 < p2 < p && taken@[p1] && taken@[p2] ==> #[trigger] r@[p1 - nk]
                    < #[trigger] r@[p2 - nk],
        decreases m - p,
    {
        proof {
            lemma_cnt_bounds(taken@, nk as int, p as int);
            lemma_cnt_bounds(taken@, 0, c as int);
        }
        if taken[p] {
            while c < nk && taken[c]
                invariant
                    c <= nk,
                    c - cnt(taken@, 0, c as int) == cnt(taken@, nk as int, p as int),
                    forall|x: int|
                        0 <= x < c && !taken@[x] ==> exists|pp: int|
                            nk <= pp < p && taken@[pp] && r@[pp - nk] == x,
                    forall|pp: int|
                        nk <= pp < p && taken@[pp] ==> #[trigger] r@[pp - nk] < c && !taken@[r@[pp
                            - nk] as int],
                decreases nk - c,
            {
                proof {
                    assert(cnt(taken@, 0, c + 1) == cnt(taken@, 0, c as int) + 1);
                }
                c = c + 1;
            }
            proof {
                if c == nk {
                    lemma_cnt_split(taken@, 0, nk as int, mi);
                    lemma_cnt_split(taken@, nk as int, p as int, mi);
                    lemma_cnt_split(taken@, p as int, p + 1, mi);
                    assert(cnt(taken@, p as int, p as int) == 0);
                    assert(cnt(taken@, p as int, p + 1) == 1);
                    lemma_cnt_bounds(taken@, p + 1, mi);
                    assert(false);
                }
                assert(cnt(taken@, 0, c + 1) == cnt(taken@, 0, c as int));
                assert(cnt(taken@, nk as int, p + 1) == cnt(taken@, nk as int, p as int) + 1);
            }
            let ghost old_r = r@;
            r.push(c as u64);
            last = c as u64;
            proof {
                assert(r@[p - nk] == c as u64);
                assert forall|x: int| 0 <= x < c + 1 && !taken@[x] implies exists|pp: int|
                    nk <= pp < p + 1 && taken@[pp] && r@[pp - nk] == x by {
                    if x < c {
                        let pp = choose|pp: int|
                            nk <= pp < p && taken@[pp] && old_r[pp - nk] == x;
                        assert(r@[pp - nk] == x);
                    } else {
                        assert(r@[p - nk] == x);
                    }
                }
            }
            c = c + 1;
        } else {
            let ghost old_r = r@;
            r.push(last);
            proof {
                assert(cnt(taken@, nk as int, p + 1) == cnt(taken@, nk as int, p as int));
                assert forall|x: int| 0 <= x < c && !taken@[x] implies exists|pp: int|
                    nk <= pp < p + 1 && taken@[pp] && r@[pp - nk] == x by {
                    let pp = choose|pp: int| nk <= pp < p && taken@[pp] && old_r[pp - nk] == x;
                    assert(r@[pp - nk] == x);
                }
            }
        }
        p = p + 1;
    }
    proof {
        // every free in-range slot was consumed: [c, num_keys) is all taken
        lemma_cnt_split(taken@, 0, nk as int, mi);
        lemma_cnt_split(taken@, 0, c as int, nk as int);
        lemma_cnt_bounds(taken@, 0, c as int);
        lemma_cnt_bounds(taken@, c as int, nk as int);
        assert(cnt(taken@, c as int, nk as int) == nk - c);
        lemma_cnt_all_true(taken@, c as int, nk as int);
    }
    r
}

} // verus!
