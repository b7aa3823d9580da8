//! Non-perfect hashing underlying the perfect hash function: keys expose a
//! stable byte representation, and a [`Hasher`] turns those bytes plus a
//! 64-bit seed into a [`Fingerprint`].  Both hashers are pinned to spec
//! functions, so a query provably recomputes the fingerprint seen at build
//! time.
use vstd::prelude::*;
use vstd::arithmetic::power2::{pow2, lemma_pow2_adds, lemma_pow2_pos, lemma2_to64};
use vstd::bits::{lemma_u64_pow2_no_overflow, lemma_u64_shl_is_mul, lemma_u64_shr_is_div};

verus! {

/// Multiplicative constant of the Murmur2 64-bit mix.
pub const MURMUR_M: u64 = 0xc6a4_a793_5bd1_e995;

/// A 128-bit fingerprint: the first half selects partition and bucket, the
/// second half selects the slot.  A 64-bit hasher repeats its hash in both
/// halves.
#[derive(Clone, Copy, Debug, PartialEq, Eq, Structural)]
pub struct Fingerprint {
    pub first: u64,
    pub second: u64,
}

/// Multiplication modulo `2^64`.
pub open spec fn wmul(a: u64, b: u64) -> u64 {
    vstd::wrapping::u64_specs::wrapping_mul(a, b)
}

/// Little-endian value of a byte sequence.
pub open spec fn le_value(s: Seq<u8>) -> nat
    decreases s.len(),
{
    if s.len() == 0 {
        0
    } else {
        (s[0] + 256 * le_value(s.skip(1))) as nat
    }
}

pub proof fn lemma_le_value_concat(a: Seq<u8>, b: Seq<u8>)
    ensures
        le_value(a + b) == le_value(a) + pow2(8 * a.len()) * le_value(b),
    decreases a.len(),
{
    if a.len() == 0 {
        assert(a + b =~= b);
        assert(pow2(0) == 1) by {
            lemma2_to64();
        }
    } else {
        lemma_le_value_concat(a.skip(1), b);
        assert((a + b).skip(1) =~= a.skip(1) + b);
        assert(pow2(8 * a.len()) == 256 * pow2(8 * (a.len() - 1) as nat)) by {
            lemma_pow2_adds(8, (8 * (a.len() - 1)) as nat);
            lemma2_to64();
        }
        assert(256 * (le_value(a.skip(1)) + pow2(8 * (a.len() - 1) as nat) * le_value(b)) == 256
            * le_value(a.skip(1)) + (256 * pow2(8 * (a.len() - 1) as nat)) * le_value(b))
            by (nonlinear_arith);
    }
}

pub proof fn lemma_le_value_bound(s: Seq<u8>)
    ensures
        le_value(s) < pow2(8 * s.len()),
    decreases s.len(),
{
    if s.len() == 0 {
        assert(pow2(0) == 1) by {
            lemma2_to64();
        }
    } else {
        lemma_le_value_bound(s.skip(1));
        assert(pow2(8 * s.len()) == 256 * pow2(8 * (s.len() - 1) as nat)) by {
            lemma_pow2_adds(8, (8 * (s.len() - 1)) as nat);
            lemma2_to64();
        }
        assert(s[0] + 256 * le_value(s.skip(1)) < 256 * pow2(8 * (s.len() - 1) as nat))
            by (nonlinear_arith)
            requires
                s[0] < 256,
                le_value(s.skip(1)) + 1 <= pow2(8 * (s.len() - 1) as nat),
        ;
    }
}

/// One Murmur2 round applied to an 8-byte chunk value.
pub open spec fn mix_chunk(k: u64) -> u64 {
    let k1 = wmul(k, MURMUR_M);
    let k2 = k1 ^ (k1 >> 47);
    wmul(k2, MURMUR_M)
}

/// Folds whole 8-byte chunks of `s` into the running state `h`.
pub open spec fn body_rounds(h: u64, s: Seq<u8>) -> u64
    decreases s.len(),
{
    if s.len() < 8 {
        h
    } else {
        body_rounds(wmul(h ^ mix_chunk(le_value(s.take(8)) as u64), MURMUR_M), s.skip(8))
    }
}

/// The Murmur2 64-bit hash of a byte sequence under a seed.
pub open spec fn spec_murmur64(s: Seq<u8>, seed: u64) -> u64 {
    let h0 = seed ^ wmul(s.len() as u64, MURMUR_M);
    let hb = body_rounds(h0, s);
    let tail = s.skip(s.len() - (s.len() % 8));
    let ht = if tail.len() > 0 {
        wmul(hb ^ (le_value(tail) as u64), MURMUR_M)
    } else {
        hb
    };
    let h1 = ht ^ (ht >> 47);
    let h2 = wmul(h1, MURMUR_M);
    h2 ^ (h2 >> 47)
}

/// Reads `count <= 8` bytes starting at `off` as a little-endian value.
pub fn read_le_bytes(bytes: &Vec<u8>, off: usize, count: usize) -> (r: u64)
    requires
        count <= 8,
        off + count <= bytes@.len(),
    ensures
        r as nat == le_value(bytes@.subrange(off as int, off + count)),
{
    let total = bytes.len();
    let mut r: u64 = 0;
    let mut j: usize = 0;
    proof {
        assert(bytes@.subrange(off as int, off as int) =~= Seq::<u8>::empty());
        lemma2_to64();
    }
    while j < count
        invariant
            j <= count,
            count <= 8,
            off + count <= total,
            total == bytes@.len(),
            r as nat == le_value(bytes@.subrange(off as int, off + j)),
            (r as nat) < pow2((8 * j) as nat),
        decreases count - j,
    {
        let b = bytes[off + j];
        let shift: u64 = 8 * (j as u64);
        proof {
            lemma2_to64();
            let sub = bytes@.subrange(off as int, off + j);
            let sub1 = bytes@.subrange(off as int, off + j + 1);
            assert(sub1 =~= sub + seq![bytes@[off + j]]);
            lemma_le_value_concat(sub, seq![bytes@[off + j]]);
            assert(le_value(seq![bytes@[off + j]]) == bytes@[off + j]) by {
                assert(seq![bytes@[off + j]].skip(1) =~= Seq::<u8>::empty());
                assert(seq![bytes@[off + j]][0] == bytes@[off + j]);
                assert(le_value(Seq::<u8>::empty()) == 0);
            }
            vstd::arithmetic::power2::lemma2_to64_rest();
            if shift < 56 {
                vstd::arithmetic::power2::lemma_pow2_strictly_increases(shift as nat, 56);
            }
            assert((b as u64) * pow2(shift as nat) <= 255 * pow2(56)) by (nonlinear_arith)
                requires
                    b <= 255,
                    pow2(shift as nat) <= pow2(56),
            ;
            assert(255 * pow2(56) <= u64::MAX);
            lemma_u64_shl_is_mul(b as u64, shift);
            lemma_u64_shl_is_mul(1u64, shift);
            assert((r | (b as u64) << shift) == r + ((b as u64) << shift)) by (bit_vector)
                requires
                    r < (1u64 << shift),
                    b < 256u64,
                    shift <= 56u64,
                    shift % 8 == 0u64,
            ;
            assert(pow2((8 * (j + 1)) as nat) == pow2((8 * j) as nat) * pow2(8)) by {
                lemma_pow2_adds((8 * j) as nat, 8);
            }
            assert(r + bytes@[off + j] * pow2((8 * j) as nat) < pow2((8 * j) as nat) * 256)
                by (nonlinear_arith)
                requires
                    (r as nat) < pow2((8 * j) as nat),
                    bytes@[off + j] < 256,
            ;
            assert(shift as nat == (8 * j) as nat);
            assert(le_value(sub1) == le_value(sub) + pow2((8 * j) as nat) * (bytes@[off
                + j] as nat));
            assert(pow2((8 * j) as nat) * (bytes@[off + j] as nat) == (bytes@[off
                + j] as nat) * pow2((8 * j) as nat)) by (nonlinear_arith);
            assert((b as u64) << shift == (b as nat) * pow2((8 * j) as nat));
        }
        r = r | ((b as u64) << shift);
        j = j + 1;
    }
    r
}

/// Executes the Murmur2 64-bit hash; the result is pinned to
/// [`spec_murmur64`].
pub fn murmur64(bytes: &Vec<u8>, seed: u64) -> (r: u64)
    ensures
        r == spec_murmur64(bytes@, seed),
{
    let n = bytes.len();
    let blocks = n / 8;
    let ghost h0 = seed ^ wmul(n as u64, MURMUR_M);
    let mut h: u64 = seed ^ (n as u64).wrapping_mul(MURMUR_M);
    let mut i: usize = 0;
    proof {
        assert(bytes@.skip(0) =~= bytes@);
    }
    while i < blocks
        invariant
            i <= blocks,
            blocks == bytes@.len() / 8,
            n == bytes@.len(),
            body_rounds(h0, bytes@) == body_rounds(h, bytes@.skip(8 * i)),
        decreases blocks - i,
    {
        let k = read_le_bytes(bytes, 8 * i, 8);
        proof {
            let rem = bytes@.skip(8 * i);
            assert(rem.len() >= 8);
            assert(rem.take(8) =~= bytes@.subrange(8 * i, 8 * i + 8));
            assert(rem.skip(8) =~= bytes@.skip(8 * (i + 1)));
            lemma_le_value_bound(rem.take(8));
            lemma2_to64();
        }
        let k1 = k.wrapping_mul(MURMUR_M);
        let k2 = k1 ^ (k1 >> 47u64);
        let k3 = k2.wrapping_mul(MURMUR_M);
        h = (h ^ k3).wrapping_mul(MURMUR_M);
        i = i + 1;
    }
    let rem = n - blocks * 8;
    proof {
        assert(bytes@.skip(8 * blocks).len() < 8);
        assert(rem == bytes@.len() % 8);
        assert(bytes@.skip(8 * blocks) =~= bytes@.skip(bytes@.len() - (bytes@.len() % 8)));
    }
    if rem > 0 {
        let t = read_le_bytes(bytes, blocks * 8, rem);
        proof {
            assert(bytes@.subrange(8 * blocks, 8 * blocks + rem) =~= bytes@.skip(8 * blocks));
        }
        h = (h ^ t).wrapping_mul(MURMUR_M);
    }
    h = h ^ (h >> 47u64);
    h = h.wrapping_mul(MURMUR_M);
    h = h ^ (h >> 47u64);
    h
}

/// Types usable as keys: anything with a stable byte representation.
pub trait Hashable {
    /// The byte representation the hashers consume.
    spec fn key_bytes(&self) -> Seq<u8>;

    /// Materialises [`Self::key_bytes`].
    fn as_bytes(&self) -> (r: Vec<u8>)
        ensures
            r@ == self.key_bytes(),
    ;
}

impl Hashable for Vec<u8> {
    open spec fn key_bytes(&self) -> Seq<u8> {
        self@
    }

    fn as_bytes(&self) -> (r: Vec<u8>) {
        let mut out: Vec<u8> = Vec::new();
        let mut i: usize = 0;
        proof {
            assert(out@ =~= self@.take(0));
        }
        while i < self.len()
            invariant
                i <= self@.len(),
                out@ == self@.take(i as int),
            decreases self@.len() - i,
        {
            out.push(self[i]);
            proof {
                assert(out@ =~= self@.take(i + 1));
            }
            i = i + 1;
        }
        proof {
            assert(self@.take(self@.len() as int) =~= self@);
        }
        out
    }
}

/// The fixed-width little-endian byte form of a 64-bit key.
pub open spec fn u64_key_bytes(v: u64) -> Seq<u8> {
    Seq::new(8, |i: int| ((v as nat) / pow2((8 * i) as nat) % 256) as u8)
}

impl Hashable for u64 {
    open spec fn key_bytes(&self) -> Seq<u8> {
        u64_key_bytes(*self)
    }

    fn as_bytes(&self) -> (r: Vec<u8>) {
        let mut out: Vec<u8> = Vec::new();
        let mut i: u64 = 0;
        while i < 8
            invariant
                i <= 8,
                out@.len() == i,
                forall|k: int| 0 <= k < i ==> out@[k] == u64_key_bytes(*self)[k],
            decreases 8 - i,
        {
            let shift: u64 = 8 * i;
            let b = ((*self >> shift) & 0xff) as u8;
            proof {
                lemma_u64_shr_is_div(*self, shift);
                assert((*self >> shift) & 0xff == (*self >> shift) % 256) by (bit_vector);
            }
            out.push(b);
            i = i + 1;
        }
        proof {
            assert(out@ =~= u64_key_bytes(*self));
        }
        out
    }
}

/// A non-cryptographic hash family, fixed at the type level, that backs a
/// perfect hash function.
pub trait Hasher {
    /// The fingerprint of a byte string under a seed.
    spec fn spec_fingerprint(bytes: Seq<u8>, seed: u64) -> Fingerprint;

    /// Computes [`Self::spec_fingerprint`].
    fn hash(bytes: &Vec<u8>, seed: u64) -> (r: Fingerprint)
        ensures
            r == Self::spec_fingerprint(bytes@, seed),
    ;
}

/// The Murmur2 64-bit hash; both fingerprint halves carry the same value.
pub struct MurmurHash2_64;

impl Hasher for MurmurHash2_64 {
    open spec fn spec_fingerprint(bytes: Seq<u8>, seed: u64) -> Fingerprint {
        Fingerprint { first: spec_murmur64(bytes, seed), second: spec_murmur64(bytes, seed) }
    }

    fn hash(bytes: &Vec<u8>, seed: u64) -> (r: Fingerprint) {
        let h = murmur64(bytes, seed);
        Fingerprint { first: h, second: h }
    }
}

/// A 128-bit hash built from two Murmur2 64-bit passes: one with the seed
/// and one with its bitwise negation.
pub struct MurmurHash2_128;

impl Hasher for MurmurHash2_128 {
    open spec fn spec_fingerprint(bytes: Seq<u8>, seed: u64) -> Fingerprint {
        Fingerprint {
            first: spec_murmur64(bytes, seed),
            second: spec_murmur64(bytes, !seed),
        }
    }

    fn hash(bytes: &Vec<u8>, seed: u64) -> (r: Fingerprint) {
        Fingerprint { first: murmur64(bytes, seed), second: murmur64(bytes, !seed) }
    }
}

} // verus!
