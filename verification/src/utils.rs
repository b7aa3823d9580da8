//! Outside capabilities the construction consumes — drawing seeds and
//! reading the clock — and the invariant checker for built functions.
use vstd::prelude::*;
use crate::encoders::Encoder;
use crate::hashing::Hasher;
use crate::minimality::Minimality;
use crate::single_phf::SinglePhf;

verus! {

/// The monotonic clock type of std, opaque to the verifier.
#[verifier::external_type_specification]
#[verifier::external_body]
pub struct ExInstant(std::time::Instant);

/// Relies on `rand::random`: draws a fresh pseudo-random 64-bit seed.
/// Nothing can be promised of a random value.
#[verifier::external_body]
pub fn random_seed() -> u64 {
    rand::random()
}

/// Relies on `std::time::Instant::now`: an opaque reading of the
/// monotonic clock.  Nothing can be promised of a clock reading.
#[verifier::external_body]
pub fn clock_now() -> std::time::Instant {
    std::time::Instant::now()
}

/// Relies on `std::time::Instant::elapsed`: the time since `t`, converted
/// to nanoseconds.  Nothing can be promised of a clock reading.
#[verifier::external_body]
pub fn elapsed_nanos(t: &std::time::Instant) -> u64 {
    t.elapsed().as_nanos() as u64
}

/// The bit vector of the `sux` crate, opaque to the verifier.
#[verifier::external_type_specification]
#[verifier::external_body]
#[verifier::reject_recursive_types(B)]
pub struct ExBitVec<B>(sux::bits::BitVec<B>);

/// The bits held by a `sux` bit vector.
pub uninterp spec fn bit_vec_bits(b: sux::bits::BitVec<Vec<usize>>) -> Seq<bool>;

/// Relies on `sux::bits::BitVec::new`: a vector of `len` bits, all false.
#[verifier::external_body]
fn bit_vec_new(len: usize) -> (r: sux::bits::BitVec<Vec<usize>>)
    ensures
        bit_vec_bits(r) == Seq::new(len as nat, |i: int| false),
{
    sux::bits::BitVec::new(len)
}

/// Relies on `sux::traits::BitVecOps::get`: the bit at `index`, which must
/// be in bounds (the call panics otherwise).
#[verifier::external_body]
fn bit_vec_get(b: &sux::bits::BitVec<Vec<usize>>, index: usize) -> (r: bool)
    requires
        index < bit_vec_bits(*b).len(),
    ensures
        r == bit_vec_bits(*b)[index as int],
{
    sux::traits::BitVecOps::get(b, index)
}

/// Relies on `sux::traits::BitVecOpsMut::set`: writes the bit at `index`,
/// which must be in bounds (the call panics otherwise).
#[verifier::external_body]
fn bit_vec_set(b: &mut sux::bits::BitVec<Vec<usize>>, index: usize, value: bool)
    requires
        index < bit_vec_bits(*old(b)).len(),
    ensures
        bit_vec_bits(*final(b)) == bit_vec_bits(*old(b)).update(index as int, value),
{
    sux::traits::BitVecOpsMut::set(b, index, value)
}

/// A property a built function must never exhibit, found by [`check`].
#[derive(Clone, Copy, Debug, PartialEq, Eq, Structural)]
pub enum ViolatedInvariant {
    /// A position reached or exceeded the declared table size.
    PositionOutOfRange { position: u64, table_size: u64 },
    /// A minimal function returned a position at or above the key count.
    NotMinimal { position: u64, table_size: u64, num_keys: u64 },
    /// Two keys collided on one position.
    Duplicates { duplicate_hash: u64 },
    /// The declared table size is below the key count.
    MismatchedTableSize { table_size: u64, num_keys: u64 },
}

/// The keys' positions under `f` are what a sound function owes: pairwise
/// distinct, below the table length, and below the key count when the
/// function is minimal.
pub open spec fn keys_sound<M: Minimality, H: Hasher, E: Encoder>(keys: Seq<Vec<u8>>,
    f: SinglePhf<M, H, E>) -> bool {
    &&& f.spec_table_size() >= f.spec_num_keys()
    &&& forall|i: int, j: int|
        0 <= i < keys.len() && 0 <= j < keys.len() && i != j ==> f.spec_eval(#[trigger] keys[i]@)
            != f.spec_eval(#[trigger] keys[j]@)
    &&& forall|i: int|
        0 <= i < keys.len() ==> f.spec_eval(#[trigger] keys[i]@) < f.spec_table_size()
    &&& (f.spec_minimal() ==> forall|i: int|
        0 <= i < keys.len() ==> f.spec_eval(#[trigger] keys[i]@) < f.spec_num_keys())
}

/// Key `j` is the earliest key whose position repeats an earlier key's.
pub open spec fn first_duplicate_at<M: Minimality, H: Hasher, E: Encoder>(keys: Seq<Vec<u8>>,
    f: SinglePhf<M, H, E>, j: int) -> bool {
    &&& 0 <= j < keys.len()
    &&& exists|i: int| 0 <= i < j && f.spec_eval(#[trigger] keys[i]@) == f.spec_eval(keys[j]@)
    &&& forall|i1: int, i2: int|
        0 <= i1 < i2 < j ==> f.spec_eval(#[trigger] keys[i1]@) != f.spec_eval(
            #[trigger] keys[i2]@)
}

/// Decides on the original key set whether the function is injective (and
/// lands inside `[0, num_keys)` when minimal): `Ok` exactly when every
/// position check passes, and each error names its violation.  The only
/// machine caveat: a table longer than this machine can index is reported
/// as out of range, as the original did on a failed index conversion.
#[verifier::rlimit(60)]
#[verifier::loop_isolation(false)]
pub fn check<M: Minimality, H: Hasher, E: Encoder>(keys: &Vec<Vec<u8>>, f: &SinglePhf<M, H, E>)
    -> (r: Result<(), ViolatedInvariant>)
    requires
        f.wf(),
    ensures
        (r == Ok::<(), ViolatedInvariant>(())) <==> (f.spec_table_size() <= usize::MAX
            && keys_sound(keys@, *f)),
        (r == Err::<(), ViolatedInvariant>(ViolatedInvariant::MismatchedTableSize {
            table_size: f.spec_table_size(),
            num_keys: f.spec_num_keys(),
        })) <==> f.spec_table_size() < f.spec_num_keys(),
        (r == Err::<(), ViolatedInvariant>(ViolatedInvariant::PositionOutOfRange {
            position: usize::MAX as u64,
            table_size: f.spec_table_size(),
        })) <==> (f.spec_table_size() >= f.spec_num_keys() && f.spec_table_size() > usize::MAX),
        r matches Err(e) ==> {
            ||| (e == (ViolatedInvariant::MismatchedTableSize {
                table_size: f.spec_table_size(),
                num_keys: f.spec_num_keys(),
            }) && f.spec_table_size() < f.spec_num_keys())
            ||| (e == (ViolatedInvariant::PositionOutOfRange {
                position: usize::MAX as u64,
                table_size: f.spec_table_size(),
            }) && f.spec_table_size() > usize::MAX)
            ||| exists|j: int|
                first_duplicate_at(keys@, *f, j) && e == (ViolatedInvariant::Duplicates {
                    duplicate_hash: f.spec_eval(#[trigger] keys@[j]@),
                })
        },
{
    let range = f.table_size();
    if range < f.num_keys() {
        return Err(ViolatedInvariant::MismatchedTableSize {
            table_size: range,
            num_keys: f.num_keys(),
        });
    }
    if f.inner.table_size > usize::MAX as u64 {
        return Err(ViolatedInvariant::PositionOutOfRange {
            position: usize::MAX as u64,
            table_size: range,
        });
    }
    let mut present = bit_vec_new(f.inner.table_size as usize);
    let n = keys.len();
    let mut i: usize = 0;
    while i < n
        invariant
            i <= n,
            bit_vec_bits(present).len() == f.inner.table_size,
            forall|k: int|
                0 <= k < i ==> f.spec_eval(#[trigger] keys@[k]@) < f.spec_table_size(),
            f.spec_minimal() ==> forall|k: int|
                0 <= k < i ==> f.spec_eval(#[trigger] keys@[k]@) < f.spec_num_keys(),
            forall|p: int|
                0 <= p < f.inner.table_size ==> (bit_vec_bits(present)[p] <==> exists|k: int|
                    0 <= k < i && f.spec_eval(#[trigger] keys@[k]@) == p),
            forall|k1: int, k2: int|
                0 <= k1 < k2 < i ==> f.spec_eval(#[trigger] keys@[k1]@) != f.spec_eval(
                    #[trigger] keys@[k2]@),
        decreases n - i,
    {
        let position = f.hash(&keys[i]);
        if position >= range {
            return Err(ViolatedInvariant::PositionOutOfRange { position, table_size: range });
        }
        if f.inner.minimal && position >= f.num_keys() {
            return Err(ViolatedInvariant::NotMinimal {
                position,
                table_size: range,
                num_keys: f.num_keys(),
            });
        }
        if bit_vec_get(&present, position as usize) {
            proof {
                assert(first_duplicate_at(keys@, *f, i as int));
            }
            return Err(ViolatedInvariant::Duplicates { duplicate_hash: position });
        }
        let ghost old_bits = bit_vec_bits(present);
        bit_vec_set(&mut present, position as usize, true);
        proof {
            assert forall|p: int| 0 <= p < f.inner.table_size implies (bit_vec_bits(present)[p]
                <==> exists|k: int| 0 <= k < i + 1 && f.spec_eval(#[trigger] keys@[k]@) == p) by {
                if p == position {
                    assert(f.spec_eval(keys@[i as int]@) == p);
                } else {
                    if exists|k: int| 0 <= k < i + 1 && f.spec_eval(#[trigger] keys@[k]@) == p {
                        let k = choose|k: int|
                            0 <= k < i + 1 && f.spec_eval(#[trigger] keys@[k]@) == p;
                        assert(k < i);
                    }
                }
            }
            assert forall|k1: int, k2: int| 0 <= k1 < k2 < i + 1 implies f.spec_eval(
                #[trigger] keys@[k1]@) != f.spec_eval(#[trigger] keys@[k2]@) by {
                if k2 == i {
                    assert(!old_bits[f.spec_eval(keys@[i as int]@) as int]);
                }
            }
        }
        i = i + 1;
    }
    Ok(())
}

} // verus!
