//! Persistence: a built function is flattened to a self-contained byte
//! stream of little-endian 64-bit words — format tag, geometry, seed,
//! minimality, encoder variant tag, the pilot values, and the free-slot
//! map — and restored from one.  Loading validates every field and rejects
//! unknown tags rather than misinterpreting bytes.
use vstd::prelude::*;
use vstd::arithmetic::power2::{pow2, lemma_pow2_adds, lemma_pow2_pos, lemma2_to64};
use vstd::bits::lemma_u64_shr_is_div;
use crate::encoders::{Encoder, MAX_PILOTS};
use crate::hashing::{le_value, lemma_le_value_bound, read_le_bytes, u64_key_bytes, Hasher};
use crate::minimality::Minimality;
use crate::search::PILOT_LIMIT;
use crate::partitioned_phf::{part_width, PartitionedPhf};
use crate::single_phf::SinglePhf;
use crate::table::PhfTable;
use crate::LoadError;

verus! {

/// Format tag of a persisted non-partitioned function.
pub const SINGLE_MAGIC: u64 = 0x3166_6870;

/// The 64-bit word stored at word index `k` of a byte stream.
pub open spec fn word_at(s: Seq<u8>, k: int) -> u64 {
    le_value(s.subrange(8 * k, 8 * k + 8)) as u64
}

/// The first `k` little-endian bytes of `v`.
pub open spec fn le_bytes_of(v: nat, k: nat) -> Seq<u8> {
    Seq::new(k, |i: int| ((v / pow2((8 * i) as nat)) % 256) as u8)
}

/// Reading little-endian bytes back gives the value modulo `2^(8k)`.
pub proof fn lemma_le_value_le_bytes(v: nat, k: nat)
    ensures
        le_value(le_bytes_of(v, k)) == v % pow2((8 * k) as nat),
    decreases k,
{
    if k == 0 {
        assert(le_bytes_of(v, 0) =~= Seq::<u8>::empty());
        assert(pow2(0) == 1) by {
            lemma2_to64();
        }
    } else {
        lemma_le_value_le_bytes(v / 256, (k - 1) as nat);
        assert(le_bytes_of(v, k).skip(1) =~= le_bytes_of(v / 256, (k - 1) as nat)) by {
            assert forall|i: int| 0 <= i < k - 1 implies le_bytes_of(v, k).skip(1)[i]
                == le_bytes_of(v / 256, (k - 1) as nat)[i] by {
                lemma_pow2_adds(8, (8 * i) as nat);
                lemma_pow2_pos((8 * i) as nat);
                lemma2_to64();
                vstd::arithmetic::div_mod::lemma_div_denominator(v as int, 256,
                    pow2((8 * i) as nat) as int);
                assert(le_bytes_of(v, k).skip(1)[i] == le_bytes_of(v, k)[i + 1]);
                assert(256 * pow2((8 * i) as nat) == pow2((8 * (i + 1)) as nat));
                assert((v / 256) / pow2((8 * i) as nat) == v / (256 * pow2((8 * i) as nat)));
            }
        }
        assert(le_bytes_of(v, k)[0] == (v % 256) as u8) by {
            assert(pow2(0) == 1) by {
                lemma2_to64();
            }
            assert(v / 1 == v) by (nonlinear_arith);
        }
        lemma_pow2_pos((8 * (k - 1)) as nat);
        assert(pow2((8 * k) as nat) == 256 * pow2((8 * (k - 1)) as nat)) by {
            lemma_pow2_adds(8, (8 * (k - 1)) as nat);
            lemma2_to64();
        }
        vstd::arithmetic::div_mod::lemma_breakdown(v as int, 256,
            pow2((8 * (k - 1)) as nat) as int);
    }
}

/// The fixed eight-byte form of a word is its eight little-endian bytes.
pub proof fn lemma_key_bytes_are_le(v: u64)
    ensures
        u64_key_bytes(v) == le_bytes_of(v as nat, 8),
        le_value(u64_key_bytes(v)) == v,
{
    assert(u64_key_bytes(v) =~= le_bytes_of(v as nat, 8));
    lemma_le_value_le_bytes(v as nat, 8);
    vstd::arithmetic::power2::lemma2_to64_rest();
    vstd::arithmetic::div_mod::lemma_small_mod(v as nat, pow2(64));
}

/// Appends the eight little-endian bytes of `v`.
pub fn push_u64(out: &mut Vec<u8>, v: u64)
    ensures
        final(out)@ == old(out)@ + u64_key_bytes(v),
{
    let ghost orig = out@;
    let mut i: u64 = 0;
    while i < 8
        invariant
            i <= 8,
            out@.len() == orig.len() + i,
            forall|x: int| 0 <= x < orig.len() ==> out@[x] == orig[x],
            forall|k: int| 0 <= k < i ==> out@[orig.len() + k] == u64_key_bytes(v)[k],
        decreases 8 - i,
    {
        let shift: u64 = 8 * i;
        let b = ((v >> shift) & 0xff) as u8;
        proof {
            lemma_u64_shr_is_div(v, shift);
            assert((v >> shift) & 0xff == (v >> shift) % 256) by (bit_vector);
        }
        out.push(b);
        i = i + 1;
    }
    proof {
        assert(out@ =~= orig + u64_key_bytes(v));
    }
}

/// Reads the word at word index `k`.
pub fn read_word(bytes: &Vec<u8>, k: usize) -> (r: u64)
    requires
        8 * k + 8 <= bytes@.len(),
    ensures
        r == word_at(bytes@, k as int),
{
    let total = bytes.len();
    proof {
        lemma_le_value_bound(bytes@.subrange(8 * k, 8 * k + 8));
        vstd::arithmetic::power2::lemma2_to64_rest();
    }
    read_le_bytes(bytes, 8 * k, 8)
}

/// Appending bytes leaves the existing words unchanged.
pub proof fn lemma_words_stable(s1: Seq<u8>, s2: Seq<u8>, k: int)
    requires
        0 <= k,
        8 * k + 8 <= s1.len(),
        s1.len() <= s2.len(),
        forall|x: int| 0 <= x < s1.len() ==> s1[x] == s2[x],
    ensures
        word_at(s2, k) == word_at(s1, k),
{
    assert(s2.subrange(8 * k, 8 * k + 8) =~= s1.subrange(8 * k, 8 * k + 8));
}

/// The word just appended reads back as itself.
pub proof fn lemma_word_appended(s1: Seq<u8>, s2: Seq<u8>, v: u64, k: int)
    requires
        0 <= k,
        s1.len() == 8 * k,
        s2 == s1 + u64_key_bytes(v),
    ensures
        word_at(s2, k) == v,
{
    assert(s2.subrange(8 * k, 8 * k + 8) =~= u64_key_bytes(v));
    lemma_key_bytes_are_le(v);
}

/// Some saveable function persists exactly to this stream; such a stream
/// always loads successfully.
pub open spec fn loadable<M: Minimality, H: Hasher, E: Encoder>(bytes: Seq<u8>) -> bool {
    exists|f: SinglePhf<M, H, E>| f.saveable() && #[trigger] single_saved(f, bytes)
}

/// The contract of a saved non-partitioned function, in the order of the
/// persisted structure: format tag, key count, table length, seed,
/// minimality flag, partition count (1, there being none), then the one
/// partition's data — encoder variant tag, bucket count, free-slot count,
/// the pilots, and the free-slot map.
pub open spec fn single_saved<M: Minimality, H: Hasher, E: Encoder>(f: SinglePhf<M, H, E>,
    s: Seq<u8>) -> bool {
    let nb = f.inner.num_buckets as int;
    let fl = f.inner.free_slots@.len() as int;
    &&& s.len() == 8 * (9 + nb + fl)
    &&& word_at(s, 0) == SINGLE_MAGIC
    &&& word_at(s, 1) == f.inner.num_keys
    &&& word_at(s, 2) == f.inner.table_size
    &&& word_at(s, 3) == f.seed
    &&& word_at(s, 4) == (if f.inner.minimal {
        1u64
    } else {
        0u64
    })
    &&& word_at(s, 5) == 1u64
    &&& word_at(s, 6) == E::spec_tag()
    &&& word_at(s, 7) == f.inner.num_buckets
    &&& word_at(s, 8) == fl
    &&& forall|b: int| 0 <= b < nb ==> word_at(s, 9 + b) == f.inner.encoder.pilots()[b]
    &&& forall|q: int| 0 <= q < fl ==> word_at(s, 9 + nb + q) == f.inner.free_slots@[q]
}

/// Builds the little-endian byte stream of a word list.
fn words_to_bytes(words: &Vec<u64>) -> (r: Vec<u8>)
    ensures
        r@.len() == 8 * words@.len(),
        forall|k: int| 0 <= k < words@.len() ==> word_at(r@, k) == #[trigger] words@[k],
{
    let mut out: Vec<u8> = Vec::new();
    let mut k: usize = 0;
    let n = words.len();
    while k < n
        invariant
            k <= n,
            n == words@.len(),
            out@.len() == 8 * k,
            forall|j: int| 0 <= j < k ==> word_at(out@, j) == #[trigger] words@[j],
        decreases n - k,
    {
        let ghost before = out@;
        push_u64(&mut out, words[k]);
        proof {
            lemma_word_appended(before, out@, words@[k as int], k as int);
            assert forall|j: int| 0 <= j < k implies word_at(out@, j) == #[trigger] words@[j] by {
                lemma_words_stable(before, out@, j);
            }
        }
        k = k + 1;
    }
    out
}

impl<M: Minimality, H: Hasher, E: Encoder> SinglePhf<M, H, E> {
    /// Flattens the function to a self-contained byte stream whose layout
    /// is exactly [`single_saved`].  Saving is a pure function of the
    /// built structure: equal functions persist to identical bytes.
    #[verifier::loop_isolation(false)]
    pub fn save(&self) -> (r: Vec<u8>)
        requires
            self.wf(),
        ensures
            single_saved(*self, r@),
    {
        let nb = self.inner.encoder.num_pilots();
        let fl = self.inner.free_slots.len();
        let mut words: Vec<u64> = Vec::new();
        words.push(SINGLE_MAGIC);
        words.push(self.inner.num_keys);
        words.push(self.inner.table_size);
        words.push(self.seed);
        words.push(if self.inner.minimal {
            1
        } else {
            0
        });
        words.push(1);
        words.push(E::tag());
        words.push(self.inner.num_buckets);
        words.push(fl as u64);
        let mut b: u64 = 0;
        while b < nb
            invariant
                b <= nb,
                nb == self.inner.num_buckets,
                words@.len() == 9 + b,
                forall|j: int|
                    9 <= j < 9 + b ==> #[trigger] words@[j] == self.inner.encoder.pilots()[j - 9],
                words@[0] == SINGLE_MAGIC && words@[1] == self.inner.num_keys && words@[2]
                    == self.inner.table_size && words@[3] == self.seed && words@[5] == 1
                    && words@[6] == E::spec_tag() && words@[7] == self.inner.num_buckets
                    && words@[8] == fl,
                words@[4] == (if self.inner.minimal {
                    1u64
                } else {
                    0u64
                }),
            decreases nb - b,
        {
            let pilot = self.inner.encoder.decode(b);
            words.push(pilot);
            b = b + 1;
        }
        let mut q: usize = 0;
        while q < fl
            invariant
                q <= fl,
                fl == self.inner.free_slots@.len(),
                nb == self.inner.num_buckets,
                words@.len() == 9 + nb + q,
                forall|j: int|
                    9 <= j < 9 + nb ==> #[trigger] words@[j] == self.inner.encoder.pilots()[j - 9],
                forall|j: int|
                    9 + nb <= j < 9 + nb + q ==> #[trigger] words@[j] == self.inner.free_slots@[j
                        - 9 - nb],
                words@[0] == SINGLE_MAGIC && words@[1] == self.inner.num_keys && words@[2]
                    == self.inner.table_size && words@[3] == self.seed && words@[5] == 1
                    && words@[6] == E::spec_tag() && words@[7] == self.inner.num_buckets
                    && words@[8] == fl,
                words@[4] == (if self.inner.minimal {
                    1u64
                } else {
                    0u64
                }),
            decreases fl - q,
        {
            words.push(self.free_slot_at(q));
            q = q + 1;
        }
        let out = words_to_bytes(&words);
        proof {
            let nbi = nb as int;
            let fli = fl as int;
            assert(word_at(out@, 0) == SINGLE_MAGIC);
            assert(word_at(out@, 1) == self.inner.num_keys);
            assert(word_at(out@, 2) == self.inner.table_size);
            assert(word_at(out@, 3) == self.seed);
            assert(word_at(out@, 5) == 1u64);
            assert(word_at(out@, 6) == E::spec_tag());
            assert(word_at(out@, 7) == self.inner.num_buckets);
            assert(word_at(out@, 8) == fli);
            assert forall|j: int| 0 <= j < nbi implies word_at(out@, 9 + j)
                == self.inner.encoder.pilots()[j] by {
                assert(word_at(out@, 9 + j) == words@[9 + j]);
            }
            assert forall|j: int| 0 <= j < fli implies word_at(out@, 9 + nbi + j)
                == self.inner.free_slots@[j] by {
                assert(word_at(out@, 9 + nbi + j) == words@[9 + nbi + j]);
            }
        }
        out
    }

    /// Reads one free-slot entry.
    fn free_slot_at(&self, q: usize) -> (r: u64)
        requires
            q < self.inner.free_slots@.len(),
        ensures
            r == self.inner.free_slots@[q as int],
    {
        self.inner.free_slots[q]
    }

    /// Restores a function from a byte stream produced by [`Self::save`].
    /// Every field is validated; a stream that is too short, carries an
    /// unknown format or encoder tag, or describes an inconsistent
    /// structure is rejected.  A stream some saveable function persists to
    /// is never rejected.
    #[verifier::loop_isolation(false)]
    #[verifier::rlimit(100)]
    pub fn load(bytes: &Vec<u8>) -> (r: Result<Self, LoadError>)
        ensures
            r matches Ok(g) ==> {
                &&& g.wf()
                &&& single_saved(g, bytes@)
            },
            loadable::<M, H, E>(bytes@) ==> r is Ok,
    {
        let total = bytes.len();
        if total < 72 {
            proof {
                if loadable::<M, H, E>(bytes@) {
                    let f = choose|f: SinglePhf<M, H, E>|
                        f.saveable() && single_saved(f, bytes@);
                    assert(bytes@.len() >= 8 * (9 + f.inner.num_buckets + 0));
                }
            }
            return Err(LoadError::SerializationError);
        }
        if read_word(bytes, 0) != SINGLE_MAGIC {
            proof {
                if loadable::<M, H, E>(bytes@) {
                    let f = choose|f: SinglePhf<M, H, E>|
                        f.saveable() && single_saved(f, bytes@);
                    assert(false);
                }
            }
            return Err(LoadError::SerializationError);
        }
        let num_keys = read_word(bytes, 1);
        let table_size = read_word(bytes, 2);
        let seed = read_word(bytes, 3);
        let minimal_word = read_word(bytes, 4);
        let partition_count = read_word(bytes, 5);
        let tag = read_word(bytes, 6);
        let num_buckets = read_word(bytes, 7);
        let free_len = read_word(bytes, 8);
        proof {
            if loadable::<M, H, E>(bytes@) {
                let f = choose|f: SinglePhf<M, H, E>| f.saveable() && single_saved(f, bytes@);
                assert(num_keys == f.inner.num_keys);
                assert(table_size == f.inner.table_size);
                assert(num_buckets == f.inner.num_buckets);
                assert(minimal_word == (if f.inner.minimal {
                    1u64
                } else {
                    0u64
                }));
                assert(partition_count == 1);
                assert(tag == E::spec_tag());
                assert(free_len == f.inner.free_slots@.len());
                assert(bytes@.len() == 8 * (9 + f.inner.num_buckets + f.inner.free_slots@.len()));
            }
        }
        if tag != E::tag() {
            return Err(LoadError::SerializationError);
        }
        if minimal_word > 1 {
            return Err(LoadError::SerializationError);
        }
        if partition_count != 1 {
            return Err(LoadError::SerializationError);
        }
        let minimal = minimal_word == 1;
        if num_buckets < 1 || num_buckets > 0x1_0000_0000_0000 || num_buckets > MAX_PILOTS {
            return Err(LoadError::SerializationError);
        }
        if table_size < 1 || table_size > 0x1_0000_0000_0000 || num_keys > table_size {
            return Err(LoadError::SerializationError);
        }
        if minimal {
            if num_keys < 1 || free_len != table_size - num_keys {
                return Err(LoadError::SerializationError);
            }
        } else {
            if free_len != 0 {
                return Err(LoadError::SerializationError);
            }
        }
        if num_buckets as u128 + free_len as u128 + 9 > (usize::MAX as u128) / 8 {
            proof {
                if loadable::<M, H, E>(bytes@) {
                    let f = choose|f: SinglePhf<M, H, E>|
                        f.saveable() && single_saved(f, bytes@);
                    assert(8 * (9 + num_buckets + free_len) <= usize::MAX);
                }
            }
            return Err(LoadError::SerializationError);
        }
        if num_buckets as u128 > (usize::MAX as u128) / 64 {
            proof {
                if loadable::<M, H, E>(bytes@) {
                    let f = choose|f: SinglePhf<M, H, E>|
                        f.saveable() && single_saved(f, bytes@);
                    assert(64 * f.inner.num_buckets <= usize::MAX);
                }
            }
            return Err(LoadError::SerializationError);
        }
        let nb = num_buckets as usize;
        let fl = free_len as usize;
        if total != 8 * (9 + nb + fl) {
            return Err(LoadError::SerializationError);
        }
        let mut pilots: Vec<u64> = Vec::new();
        let mut b: usize = 0;
        while b < nb
            invariant
                b <= nb,
                8 * (9 + nb + fl) <= bytes@.len(),
                pilots@.len() == b,
                forall|j: int| 0 <= j < b ==> #[trigger] pilots@[j] == word_at(bytes@, 9 + j),
                forall|j: int| 0 <= j < b ==> #[trigger] pilots@[j] <= PILOT_LIMIT,
            decreases nb - b,
        {
            let w = read_word(bytes, 9 + b);
            if w > PILOT_LIMIT {
                proof {
                    if loadable::<M, H, E>(bytes@) {
                        let f = choose|f: SinglePhf<M, H, E>|
                            f.saveable() && single_saved(f, bytes@);
                        assert(w == f.inner.encoder.pilots()[b as int]);
                        assert(f.inner.encoder.pilots()[b as int] <= PILOT_LIMIT);
                    }
                }
                return Err(LoadError::SerializationError);
            }
            pilots.push(w);
            b = b + 1;
        }
        let mut free_slots: Vec<u64> = Vec::new();
        let mut q: usize = 0;
        while q < fl
            invariant
                q <= fl,
                8 * (9 + nb + fl) <= bytes@.len(),
                free_slots@.len() == q,
                forall|j: int|
                    0 <= j < q ==> #[trigger] free_slots@[j] == word_at(bytes@, 9 + nb + j),
                forall|j: int| 0 <= j < q ==> #[trigger] free_slots@[j] < num_keys,
            decreases fl - q,
        {
            let w = read_word(bytes, 9 + nb + q);
            if w >= num_keys {
                proof {
                    if loadable::<M, H, E>(bytes@) {
                        let f = choose|f: SinglePhf<M, H, E>|
                            f.saveable() && single_saved(f, bytes@);
                        assert(w == f.inner.free_slots@[q as int]);
                        assert(f.inner.minimal);
                        assert(f.inner.free_slots@[q as int] < f.inner.num_keys);
                    }
                }
                return Err(LoadError::SerializationError);
            }
            free_slots.push(w);
            q = q + 1;
        }
        let encoder = E::encode(&pilots);
        let inner = PhfTable { num_keys, table_size, num_buckets, encoder, free_slots, minimal };
        let g = Self::from_parts(inner, seed);
        Ok(g)
    }
}

/// The persistence round trip: a function loaded from the bytes another
/// function saved agrees with it on every key, and on the key count, the
/// table size, and the seed.  Both directions go through the exact layout
/// [`single_saved`], which pins every stored word.
pub proof fn lemma_single_round_trip<M: Minimality, H: Hasher, E1: Encoder, E2: Encoder>(
    f: SinglePhf<M, H, E1>, g: SinglePhf<M, H, E2>, s: Seq<u8>, key_bytes: Seq<u8>)
    requires
        E1::spec_tag() == E2::spec_tag(),
        single_saved(f, s),
        single_saved(g, s),
        f.inner.encoder.pilots().len() == f.inner.num_buckets,
        g.inner.encoder.pilots().len() == g.inner.num_buckets,
    ensures
        g.spec_eval(key_bytes) == f.spec_eval(key_bytes),
        g.spec_num_keys() == f.spec_num_keys(),
        g.spec_table_size() == f.spec_table_size(),
        g.spec_seed() == f.spec_seed(),
        g.spec_minimal() == f.spec_minimal(),
{
    assert(g.inner.num_buckets == f.inner.num_buckets);
    assert(g.inner.free_slots@.len() == f.inner.free_slots@.len()) by {
        assert(word_at(s, 8) == f.inner.free_slots@.len());
        assert(word_at(s, 8) == g.inner.free_slots@.len());
    }
    assert(g.inner.encoder.pilots() =~= f.inner.encoder.pilots());
    assert(g.inner.free_slots@ =~= f.inner.free_slots@);
    crate::table::lemma_encoder_equivalence(f.inner, g.inner,
        H::spec_fingerprint(key_bytes, f.seed));
}

/// Byte strings of equal length with the same little-endian value are
/// equal: the value determines every base-256 digit.
pub proof fn lemma_le_value_injective(a: Seq<u8>, b: Seq<u8>)
    requires
        a.len() == b.len(),
        le_value(a) == le_value(b),
    ensures
        a == b,
    decreases a.len(),
{
    if a.len() > 0 {
        assert(a[0] == b[0] && le_value(a.skip(1)) == le_value(b.skip(1))) by (nonlinear_arith)
            requires
                a[0] < 256,
                b[0] < 256,
                a[0] + 256 * le_value(a.skip(1)) == b[0] + 256 * le_value(b.skip(1)),
        ;
        lemma_le_value_injective(a.skip(1), b.skip(1));
        assert forall|i: int| 0 <= i < a.len() implies a[i] == b[i] by {
            if i > 0 {
                assert(a[i] == a.skip(1)[i - 1]);
                assert(b[i] == b.skip(1)[i - 1]);
            }
        }
        assert(a =~= b);
    } else {
        assert(a =~= b);
    }
}

/// Persisting is deterministic: two functions whose built structures are
/// equal — the same geometry, seed, minimality, pilot sequence, and
/// free-slot map — flatten to bit-identical byte streams, in whatever runs
/// they were built and saved.
#[verifier::rlimit(60)]
pub proof fn lemma_save_deterministic<M: Minimality, H: Hasher, E1: Encoder, E2: Encoder>(
    f1: SinglePhf<M, H, E1>, f2: SinglePhf<M, H, E2>, s1: Seq<u8>, s2: Seq<u8>)
    requires
        single_saved(f1, s1),
        single_saved(f2, s2),
        E1::spec_tag() == E2::spec_tag(),
        f1.inner.num_keys == f2.inner.num_keys,
        f1.inner.table_size == f2.inner.table_size,
        f1.inner.num_buckets == f2.inner.num_buckets,
        f1.inner.minimal == f2.inner.minimal,
        f1.seed == f2.seed,
        f1.inner.encoder.pilots() == f2.inner.encoder.pilots(),
        f1.inner.free_slots@ == f2.inner.free_slots@,
    ensures
        s1 == s2,
{
    let nb = f1.inner.num_buckets as int;
    let fl = f1.inner.free_slots@.len() as int;
    let nwords = 9 + nb + fl;
    assert(s1.len() == s2.len());
    assert forall|x: int| 0 <= x < s1.len() implies s1[x] == s2[x] by {
        vstd::arithmetic::div_mod::lemma_fundamental_div_mod(x, 8);
        let k = x / 8;
        assert(0 <= k < nwords) by (nonlinear_arith)
            requires
                8 * k + x % 8 == x,
                0 <= x % 8 < 8,
                0 <= x < 8 * nwords,
        ;
        assert(word_at(s1, k) == word_at(s2, k)) by {
            if 9 <= k < 9 + nb {
                assert(word_at(s1, k) == f1.inner.encoder.pilots()[k - 9]);
                assert(word_at(s2, k) == f2.inner.encoder.pilots()[k - 9]);
            } else if 9 + nb <= k {
                assert(word_at(s1, k) == f1.inner.free_slots@[k - 9 - nb]);
                assert(word_at(s2, k) == f2.inner.free_slots@[k - 9 - nb]);
            }
        }
        let sub1 = s1.subrange(8 * k, 8 * k + 8);
        let sub2 = s2.subrange(8 * k, 8 * k + 8);
        assert(le_value(sub1) == le_value(sub2)) by {
            lemma_le_value_bound(sub1);
            lemma_le_value_bound(sub2);
            vstd::arithmetic::power2::lemma2_to64_rest();
        }
        lemma_le_value_injective(sub1, sub2);
        assert(s1[x] == sub1[x - 8 * k]);
        assert(s2[x] == sub2[x - 8 * k]);
    }
    assert(s1 =~= s2);
}


/// Format tag of a persisted partitioned function.
pub const PARTITIONED_MAGIC: u64 = 0x3170_6870;

/// The words of one persisted sub-function: the encoder variant tag, the
/// geometry, the free-slot count, the pilots, and the free-slot map.
pub open spec fn block_words<E: Encoder>(t: PhfTable<E>) -> Seq<u64> {
    seq![
        E::spec_tag(),
        t.num_keys,
        t.table_size,
        t.num_buckets,
        t.free_slots@.len() as u64,
    ] + t.encoder.pilots() + t.free_slots@
}

/// The words of the first `k` persisted sub-functions, in order.
pub open spec fn blocks_words<E: Encoder>(parts: Seq<PhfTable<E>>, k: int) -> Seq<u64>
    decreases k,
{
    if k <= 0 {
        Seq::empty()
    } else {
        blocks_words(parts, k - 1) + block_words(parts[k - 1])
    }
}

/// The whole word stream of a persisted partitioned function: format tag,
/// key count, table length, seed, minimality, partition count, the
/// per-partition offsets, then every partition's block.
pub open spec fn partitioned_words<M: Minimality, H: Hasher, E: Encoder>(
    f: PartitionedPhf<M, H, E>) -> Seq<u64> {
    seq![
        PARTITIONED_MAGIC,
        f.num_keys,
        f.table_size,
        f.seed,
        (if f.minimal {
            1u64
        } else {
            0u64
        }),
        f.num_partitions,
    ] + f.offsets@ + blocks_words(f.parts@, f.parts@.len() as int)
}

/// The stream `s` holds exactly the persisted form of `f`.
pub open spec fn partitioned_saved<M: Minimality, H: Hasher, E: Encoder>(
    f: PartitionedPhf<M, H, E>, s: Seq<u8>) -> bool {
    &&& s.len() == 8 * partitioned_words(f).len()
    &&& forall|k: int|
        0 <= k < partitioned_words(f).len() ==> word_at(s, k) == #[trigger] partitioned_words(
            f)[k]
}

/// Block word lists depend only on the listed sub-functions.
proof fn lemma_blocks_words_stable<E: Encoder>(a: Seq<PhfTable<E>>, b: Seq<PhfTable<E>>, k: int)
    requires
        forall|r: int| 0 <= r < k ==> a[r] == b[r],
    ensures
        blocks_words(a, k) == blocks_words(b, k),
    decreases k,
{
    if k > 0 {
        lemma_blocks_words_stable(a, b, k - 1);
    }
}

/// A shorter block prefix is a prefix of a longer one.
proof fn lemma_blocks_words_extends<E: Encoder>(parts: Seq<PhfTable<E>>, k1: int, k2: int)
    requires
        0 <= k1 <= k2,
    ensures
        blocks_words(parts, k1).len() <= blocks_words(parts, k2).len(),
        forall|j: int|
            0 <= j < blocks_words(parts, k1).len() ==> #[trigger] blocks_words(parts, k2)[j]
                == blocks_words(parts, k1)[j],
    decreases k2 - k1,
{
    if k1 < k2 {
        lemma_blocks_words_extends(parts, k1, k2 - 1);
    }
}

/// Appends one sub-function's words, exactly [`block_words`].
#[verifier::loop_isolation(false)]
fn push_table_words<E: Encoder>(t: &PhfTable<E>, words: &mut Vec<u64>)
    requires
        t.wf(),
    ensures
        final(words)@ == old(words)@ + block_words(*t),
{
    let ghost orig = words@;
    let ghost head = seq![
        E::spec_tag(),
        t.num_keys,
        t.table_size,
        t.num_buckets,
        t.free_slots@.len() as u64,
    ];
    words.push(E::tag());
    words.push(t.num_keys);
    words.push(t.table_size);
    words.push(t.num_buckets);
    let fl = t.free_slots.len();
    words.push(fl as u64);
    proof {
        assert(words@ =~= orig + head);
        assert(words@ =~= orig + head + t.encoder.pilots().take(0));
    }
    let nb = t.encoder.num_pilots();
    let mut b: u64 = 0;
    while b < nb
        invariant
            b <= nb,
            nb == t.num_buckets,
            words@ == orig + head + t.encoder.pilots().take(b as int),
        decreases nb - b,
    {
        let pilot = t.encoder.decode(b);
        words.push(pilot);
        proof {
            assert(words@ =~= orig + head + t.encoder.pilots().take(b + 1));
        }
        b = b + 1;
    }
    proof {
        assert(t.encoder.pilots().take(nb as int) =~= t.encoder.pilots());
        assert(words@ =~= orig + head + t.encoder.pilots() + t.free_slots@.take(0));
    }
    let mut q: usize = 0;
    while q < fl
        invariant
            q <= fl,
            fl == t.free_slots@.len(),
            words@ == orig + head + t.encoder.pilots() + t.free_slots@.take(q as int),
        decreases fl - q,
    {
        let w = t.free_slots[q];
        words.push(w);
        proof {
            assert(words@ =~= orig + head + t.encoder.pilots() + t.free_slots@.take(q + 1));
        }
        q = q + 1;
    }
    proof {
        assert(t.free_slots@.take(fl as int) =~= t.free_slots@);
        assert(words@ =~= orig + block_words(*t));
    }
}

/// A sub-function whose persisted block could sit at `start` of `bytes`:
/// well-formed, of the requested minimality, within the machine bounds,
/// and with every block word present in the stream.
pub open spec fn block_matches<E: Encoder>(t: PhfTable<E>, bytes: Seq<u8>, start: int,
    minimal: bool) -> bool {
    &&& t.wf()
    &&& t.minimal == minimal
    &&& t.num_buckets <= MAX_PILOTS
    &&& 64 * t.num_buckets <= usize::MAX
    &&& forall|b: int|
        0 <= b < t.num_buckets ==> #[trigger] t.encoder.pilots()[b] <= PILOT_LIMIT
    &&& 8 * (start + block_words(t).len()) <= bytes.len()
    &&& forall|j: int|
        0 <= j < block_words(t).len() ==> word_at(bytes, start + j) == #[trigger] block_words(
            t)[j]
}

/// Reads one sub-function starting at word `start`: the variant tag, the
/// geometry, the pilots, and the free-slot map are all validated, and on
/// success the consumed words are exactly the result's [`block_words`].
/// A block some matching sub-function persisted is never rejected.
#[verifier::loop_isolation(false)]
#[verifier::rlimit(100)]
fn read_table_words<E: Encoder>(bytes: &Vec<u8>, start: usize, minimal: bool) -> (r: Result<
    (PhfTable<E>, usize),
    LoadError,
>)
    requires
        8 * start <= bytes@.len(),
    ensures
        r matches Ok(p) ==> {
            &&& p.0.wf()
            &&& p.0.minimal == minimal
            &&& p.0.num_buckets <= MAX_PILOTS
            &&& 64 * p.0.num_buckets <= usize::MAX
            &&& p.1 == start + block_words(p.0).len()
            &&& p.1 > start
            &&& 8 * p.1 <= bytes@.len()
            &&& forall|j: int|
                0 <= j < block_words(p.0).len() ==> word_at(bytes@, start + j)
                    == #[trigger] block_words(p.0)[j]
        },
        forall|t: PhfTable<E>|
            #![trigger block_words(t)]
            block_matches(t, bytes@, start as int, minimal) ==> r is Ok,
{
    let total_words = bytes.len() / 8;
    proof {
        vstd::arithmetic::div_mod::lemma_fundamental_div_mod(bytes@.len() as int, 8);
    }
    if start > total_words || total_words - start < 5 {
        proof {
            assert forall|t: PhfTable<E>|
                #![trigger block_words(t)]
                block_matches(t, bytes@, start as int, minimal) implies false by {
                assert(block_words(t).len() >= 5);
                assert(8 * (start + 5) <= bytes@.len());
                assert(start + 5 <= total_words) by (nonlinear_arith)
                    requires
                        8 * (start + 5) <= bytes@.len(),
                        8 * (bytes@.len() as int / 8) + bytes@.len() as int % 8
                            == bytes@.len() as int,
                        0 <= bytes@.len() as int % 8 < 8,
                        total_words == bytes@.len() as int / 8,
                ;
            }
        }
        return Err(LoadError::SerializationError);
    }
    proof {
        assert(8 * (start + 5) <= bytes@.len()) by (nonlinear_arith)
            requires
                start + 5 <= bytes@.len() / 8,
        ;
    }
    let tag = read_word(bytes, start);
    let num_keys = read_word(bytes, start + 1);
    let table_size = read_word(bytes, start + 2);
    let num_buckets = read_word(bytes, start + 3);
    let free_len = read_word(bytes, start + 4);
    proof {
        assert forall|t: PhfTable<E>|
            #![trigger block_words(t)]
            block_matches(t, bytes@, start as int, minimal) implies {
            &&& tag == E::spec_tag()
            &&& num_keys == t.num_keys
            &&& table_size == t.table_size
            &&& num_buckets == t.num_buckets
            &&& free_len == t.free_slots@.len()
            &&& start + block_words(t).len() <= total_words
        } by {
            assert(block_words(t)[0] == E::spec_tag());
            assert(block_words(t)[1] == t.num_keys);
            assert(block_words(t)[2] == t.table_size);
            assert(block_words(t)[3] == t.num_buckets);
            assert(block_words(t)[4] == t.free_slots@.len() as u64);
            assert(t.free_slots@.len() <= bytes@.len());
            assert(start + block_words(t).len() <= total_words) by (nonlinear_arith)
                requires
                    8 * (start + block_words(t).len()) <= bytes@.len(),
                    8 * (bytes@.len() as int / 8) + bytes@.len() as int % 8
                        == bytes@.len() as int,
                    0 <= bytes@.len() as int % 8 < 8,
                    total_words == bytes@.len() as int / 8,
            ;
        }
    }
    if tag != E::tag() {
        return Err(LoadError::SerializationError);
    }
    if num_buckets < 1 || num_buckets > 0x1_0000_0000_0000 || num_buckets > MAX_PILOTS {
        return Err(LoadError::SerializationError);
    }
    if table_size < 1 || table_size > 0x1_0000_0000_0000 || num_keys > table_size {
        return Err(LoadError::SerializationError);
    }
    if minimal {
        if num_keys < 1 || free_len != table_size - num_keys {
            return Err(LoadError::SerializationError);
        }
    } else {
        if free_len != 0 {
            return Err(LoadError::SerializationError);
        }
    }
    if num_buckets as u128 > (usize::MAX as u128) / 64 || free_len as u128 > usize::MAX as u128 {
        return Err(LoadError::SerializationError);
    }
    let nb = num_buckets as usize;
    let fl = free_len as usize;
    if total_words - start - 5 < nb {
        return Err(LoadError::SerializationError);
    }
    if total_words - start - 5 - nb < fl {
        return Err(LoadError::SerializationError);
    }
    proof {
        assert(8 * (start + 5 + nb + fl) <= bytes@.len()) by (nonlinear_arith)
            requires
                start + 5 + nb + fl <= bytes@.len() / 8,
        ;
    }
    let mut pilots: Vec<u64> = Vec::new();
    let mut b: usize = 0;
    while b < nb
        invariant
            b <= nb,
            8 * (start + 5 + nb + fl) <= bytes@.len(),
            pilots@.len() == b,
            forall|j: int| 0 <= j < b ==> #[trigger] pilots@[j] == word_at(bytes@, start + 5 + j),
            forall|j: int| 0 <= j < b ==> #[trigger] pilots@[j] <= PILOT_LIMIT,
        decreases nb - b,
    {
        let w = read_word(bytes, start + 5 + b);
        if w > PILOT_LIMIT {
            proof {
                assert forall|t: PhfTable<E>|
                    #![trigger block_words(t)]
                    block_matches(t, bytes@, start as int, minimal) implies false by {
                    assert(block_words(t)[5 + b] == t.encoder.pilots()[b as int]);
                    assert(t.encoder.pilots()[b as int] <= PILOT_LIMIT);
                }
            }
            return Err(LoadError::SerializationError);
        }
        pilots.push(w);
        b = b + 1;
    }
    let mut free_slots: Vec<u64> = Vec::new();
    let mut q: usize = 0;
    while q < fl
        invariant
            q <= fl,
            8 * (start + 5 + nb + fl) <= bytes@.len(),
            free_slots@.len() == q,
            forall|j: int|
                0 <= j < q ==> #[trigger] free_slots@[j] == word_at(bytes@, start + 5 + nb + j),
            forall|j: int| 0 <= j < q ==> #[trigger] free_slots@[j] < num_keys,
        decreases fl - q,
    {
        let w = read_word(bytes, start + 5 + nb + q);
        if w >= num_keys {
            proof {
                assert forall|t: PhfTable<E>|
                    #![trigger block_words(t)]
                    block_matches(t, bytes@, start as int, minimal) implies false by {
                    assert(block_words(t)[5 + nb + q] == t.free_slots@[q as int]);
                    assert(t.minimal);
                    assert(t.free_slots@[q as int] < t.num_keys);
                }
            }
            return Err(LoadError::SerializationError);
        }
        free_slots.push(w);
        q = q + 1;
    }
    let encoder = E::encode(&pilots);
    let t = PhfTable { num_keys, table_size, num_buckets, encoder, free_slots, minimal };
    proof {
        assert(block_words(t).len() == 5 + nb + fl);
        assert forall|j: int| 0 <= j < block_words(t).len() implies word_at(bytes@, start + j)
            == #[trigger] block_words(t)[j] by {
            if j >= 5 {
                if j < 5 + nb {
                    assert(block_words(t)[j] == t.encoder.pilots()[j - 5]);
                } else {
                    assert(block_words(t)[j] == t.free_slots@[j - 5 - nb]);
                }
            }
        }
    }
    Ok((t, start + 5 + nb + fl))
}

/// Some saveable partitioned function persists exactly to this stream;
/// such a stream always loads successfully.
pub open spec fn p_loadable<M: Minimality, H: Hasher, E: Encoder>(bytes: Seq<u8>) -> bool {
    exists|f: PartitionedPhf<M, H, E>|
        f.saveable() && #[trigger] partitioned_saved(f, bytes)
}

/// Relates a parse in progress to a function the stream persists: the
/// blocks read so far align with the function's blocks, so the parsed
/// fields agree and, below the partition count, the next block of the
/// stream is the function's next block.
#[verifier::rlimit(100)]
proof fn lemma_witness_align<M: Minimality, H: Hasher, E: Encoder>(f: PartitionedPhf<M, H, E>,
    bytes: Seq<u8>, parsed: Seq<PhfTable<E>>, np: int, p: int, minimal: bool)
    requires
        f.saveable(),
        partitioned_saved(f, bytes),
        f.num_partitions == np,
        f.minimal == minimal,
        0 <= p <= np,
        parsed.len() == p,
        forall|q: int| 0 <= q < p ==> (#[trigger] parsed[q]).wf() && parsed[q].minimal == minimal,
        forall|j: int|
            0 <= j < blocks_words(parsed, p).len() ==> word_at(bytes, 6 + np + j)
                == #[trigger] blocks_words(parsed, p)[j],
    ensures
        blocks_words(parsed, p).len() == blocks_words(f.parts@, p).len(),
        forall|q: int|
            0 <= q < p ==> {
                &&& (#[trigger] parsed[q]).num_keys == f.parts@[q].num_keys
                &&& parsed[q].table_size == f.parts@[q].table_size
                &&& parsed[q].num_buckets == f.parts@[q].num_buckets
                &&& parsed[q].encoder.pilots() == f.parts@[q].encoder.pilots()
                &&& parsed[q].free_slots@ == f.parts@[q].free_slots@
            },
        p < np ==> block_matches(f.parts@[p], bytes, 6 + np + blocks_words(parsed, p).len(),
            minimal),
{
    let w = partitioned_words(f);
    assert forall|j: int| 0 <= j < blocks_words(f.parts@, np).len() implies word_at(bytes, 6 + np
        + j) == #[trigger] blocks_words(f.parts@, np)[j] by {
        assert(w[6 + np + j] == blocks_words(f.parts@, np)[j]);
    }
    assert forall|q: int| 0 <= q < p implies (#[trigger] parsed[q]).encoder.pilots().len()
        == parsed[q].num_buckets && parsed[q].free_slots@.len() <= u64::MAX by {
        assert(parsed[q].wf());
    }
    assert forall|q: int| 0 <= q < np implies (#[trigger] f.parts@[q]).encoder.pilots().len()
        == f.parts@[q].num_buckets && f.parts@[q].free_slots@.len() <= u64::MAX by {
        assert(f.parts@[q].wf());
    }
    lemma_blocks_align::<E, E>(parsed, f.parts@, bytes, 6 + np, p, np, p);
    if p < np {
        let t = f.parts@[p];
        let base = blocks_words(parsed, p).len();
        lemma_blocks_words_extends(f.parts@, p, np);
        lemma_blocks_words_extends(f.parts@, p + 1, np);
        assert(blocks_words(f.parts@, p + 1) == blocks_words(f.parts@, p) + block_words(t));
        assert forall|j: int| 0 <= j < block_words(t).len() implies word_at(bytes, 6 + np + base
            + j) == #[trigger] block_words(t)[j] by {
            assert(blocks_words(f.parts@, p + 1)[base + j] == block_words(t)[j]);
            assert(blocks_words(f.parts@, np)[base + j] == blocks_words(f.parts@, p + 1)[base
                + j]);
        }
        assert(8 * ((6 + np + base) + block_words(t).len()) <= bytes.len()) by {
            assert(bytes.len() == 8 * w.len());
            assert(w.len() == 6 + np + blocks_words(f.parts@, np).len());
            assert(base + block_words(t).len() == blocks_words(f.parts@, p + 1).len());
        }
        assert(t.wf() && t.minimal == minimal) by {
            assert(f.wf());
        }
        assert(t.num_buckets <= MAX_PILOTS && 64 * t.num_buckets <= usize::MAX && forall|b: int|
            0 <= b < t.num_buckets ==> #[trigger] t.encoder.pilots()[b] <= PILOT_LIMIT) by {
            assert(f.saveable());
        }
    }
}

/// The header and offset words of a persisted partitioned function read
/// back as its fields.
proof fn lemma_header_ties<M: Minimality, H: Hasher, E: Encoder>(f: PartitionedPhf<M, H, E>,
    bytes: Seq<u8>)
    requires
        f.wf(),
        partitioned_saved(f, bytes),
    ensures
        word_at(bytes, 0) == PARTITIONED_MAGIC,
        word_at(bytes, 1) == f.num_keys,
        word_at(bytes, 2) == f.table_size,
        word_at(bytes, 3) == f.seed,
        word_at(bytes, 4) == (if f.minimal {
            1u64
        } else {
            0u64
        }),
        word_at(bytes, 5) == f.num_partitions,
        forall|q: int|
            0 <= q < f.num_partitions ==> word_at(bytes, 6 + q) == #[trigger] f.offsets@[q],
        bytes.len() == 8 * (6 + f.num_partitions + blocks_words(f.parts@,
            f.parts@.len() as int).len()),
{
    let w = partitioned_words(f);
    assert(w[0] == PARTITIONED_MAGIC && w[1] == f.num_keys && w[2] == f.table_size && w[3]
        == f.seed && w[5] == f.num_partitions);
    assert(w[4] == (if f.minimal {
        1u64
    } else {
        0u64
    }));
    assert(word_at(bytes, 0) == w[0] && word_at(bytes, 1) == w[1] && word_at(bytes, 2) == w[2]
        && word_at(bytes, 3) == w[3] && word_at(bytes, 4) == w[4] && word_at(bytes, 5) == w[5]);
    assert forall|q: int| 0 <= q < f.num_partitions implies word_at(bytes, 6 + q)
        == #[trigger] f.offsets@[q] by {
        assert(w[6 + q] == f.offsets@[q]);
        assert(word_at(bytes, 6 + q) == w[6 + q]);
    }
}

impl<M: Minimality, H: Hasher, E: Encoder> PartitionedPhf<M, H, E> {
    /// Flattens the function to a self-contained byte stream whose layout
    /// is exactly [`partitioned_saved`]: format tag, key count, table
    /// length, seed, minimality, partition count, the per-partition
    /// offsets, then every partition's tagged block.  Saving is a pure
    /// function of the built structure.
    #[verifier::loop_isolation(false)]
    #[verifier::rlimit(100)]
    pub fn save(&self) -> (r: Vec<u8>)
        requires
            self.wf(),
        ensures
            partitioned_saved(*self, r@),
    {
        let ghost head = seq![
            PARTITIONED_MAGIC,
            self.num_keys,
            self.table_size,
            self.seed,
            (if self.minimal {
                1u64
            } else {
                0u64
            }),
            self.num_partitions,
        ];
        let mut words: Vec<u64> = Vec::new();
        words.push(PARTITIONED_MAGIC);
        words.push(self.num_keys);
        words.push(self.table_size);
        words.push(self.seed);
        words.push(if self.minimal {
            1
        } else {
            0
        });
        words.push(self.num_partitions);
        proof {
            assert(words@ =~= head);
            assert(words@ =~= head + self.offsets@.take(0));
        }
        let np = self.parts.len();
        let mut p: usize = 0;
        while p < np
            invariant
                p <= np,
                np == self.offsets@.len(),
                words@ == head + self.offsets@.take(p as int),
            decreases np - p,
        {
            let off = self.offsets[p];
            words.push(off);
            proof {
                assert(words@ =~= head + self.offsets@.take(p + 1));
            }
            p = p + 1;
        }
        proof {
            assert(self.offsets@.take(np as int) =~= self.offsets@);
            assert(words@ =~= head + self.offsets@ + blocks_words(self.parts@, 0));
        }
        let mut p: usize = 0;
        while p < np
            invariant
                p <= np,
                np == self.parts@.len(),
                words@ == head + self.offsets@ + blocks_words(self.parts@, p as int),
            decreases np - p,
        {
            push_table_words(&self.parts[p], &mut words);
            proof {
                assert(words@ =~= head + self.offsets@ + blocks_words(self.parts@, p + 1));
            }
            p = p + 1;
        }
        proof {
            assert(words@ == partitioned_words(*self));
        }
        let out = words_to_bytes(&words);
        out
    }

    /// Restores a function from a byte stream produced by [`Self::save`].
    /// The format tag, each partition's tagged block, and the offset
    /// chain are all validated; a stream that is corrupt, truncated,
    /// carries unknown tags, or disagrees with its own offsets is
    /// rejected.  On success the stream is exactly the persisted form of
    /// the result, and a stream some saveable function persists to is
    /// never rejected.
    #[verifier::rlimit(100)]
    pub fn load(bytes: &Vec<u8>) -> (r: Result<Self, LoadError>)
        ensures
            r matches Ok(g) ==> {
                &&& g.wf()
                &&& partitioned_saved(g, bytes@)
            },
            p_loadable::<M, H, E>(bytes@) ==> r is Ok,
    {
        let total = bytes.len();
        proof {
            if p_loadable::<M, H, E>(bytes@) {
                let f = choose|f: PartitionedPhf<M, H, E>|
                    f.saveable() && partitioned_saved(f, bytes@);
                lemma_header_ties(f, bytes@);
            }
        }
        if total < 56 || total % 8 != 0 {
            return Err(LoadError::SerializationError);
        }
        let total_words = total / 8;
        proof {
            if p_loadable::<M, H, E>(bytes@) {
                let f = choose|f: PartitionedPhf<M, H, E>|
                    f.saveable() && partitioned_saved(f, bytes@);
                lemma_header_ties(f, bytes@);
                let words_len = 6 + f.num_partitions + blocks_words(f.parts@,
                    f.parts@.len() as int).len();
                assert(total_words == words_len) by (nonlinear_arith)
                    requires
                        total == 8 * words_len,
                        total_words == total as int / 8,
                ;
            }
        }
        if read_word(bytes, 0) != PARTITIONED_MAGIC {
            return Err(LoadError::SerializationError);
        }
        let num_keys = read_word(bytes, 1);
        let table_size = read_word(bytes, 2);
        let seed = read_word(bytes, 3);
        let minimal_word = read_word(bytes, 4);
        let np64 = read_word(bytes, 5);
        if minimal_word > 1 {
            return Err(LoadError::SerializationError);
        }
        let minimal = minimal_word == 1;
        if np64 < 1 || np64 > usize::MAX as u64 {
            return Err(LoadError::SerializationError);
        }
        let np = np64 as usize;
        if total_words < 6 || total_words - 6 < np {
            return Err(LoadError::SerializationError);
        }
        proof {
            assert(8 * (6 + np) <= bytes@.len()) by (nonlinear_arith)
                requires
                    6 + np <= bytes@.len() / 8,
                    bytes@.len() % 8 == 0,
            ;
        }
        let mut offsets: Vec<u64> = Vec::new();
        let mut p: usize = 0;
        while p < np
            invariant
                p <= np,
                6 + np <= usize::MAX,
                8 * (6 + np) <= bytes@.len(),
                offsets@.len() == p,
                forall|j: int| 0 <= j < p ==> #[trigger] offsets@[j] == word_at(bytes@, 6 + j),
            decreases np - p,
        {
            let w = read_word(bytes, 6 + p);
            offsets.push(w);
            p = p + 1;
        }
        let mut parts: Vec<PhfTable<E>> = Vec::new();
        let mut running: u64 = 0;
        let mut at: usize = 6 + np;
        let mut p: usize = 0;
        while p < np
            invariant
                p <= np,
                parts@.len() == p,
                offsets@.len() == np,
                1 <= np64,
                np == np64,
                minimal == (word_at(bytes@, 4) == 1),
                word_at(bytes@, 4) <= 1,
                np64 == word_at(bytes@, 5),
                word_at(bytes@, 0) == PARTITIONED_MAGIC,
                8 * (6 + np) <= bytes@.len(),
                forall|j: int| 0 <= j < np ==> #[trigger] offsets@[j] == word_at(bytes@, 6 + j),
                at == 6 + np + blocks_words(parts@, p as int).len(),
                8 * at <= bytes@.len(),
                forall|j: int|
                    0 <= j < blocks_words(parts@, p as int).len() ==> word_at(bytes@, 6 + np + j)
                        == #[trigger] blocks_words(parts@, p as int)[j],
                forall|q: int|
                    0 <= q < p ==> (#[trigger] parts@[q]).wf() && parts@[q].minimal == minimal,
                p >= 1 ==> offsets@[0] == 0,
                forall|q: int|
                    1 <= q < p ==> #[trigger] offsets@[q] == offsets@[q - 1] + part_width(
                        parts@[q - 1]),
                p >= 1 ==> running == offsets@[p - 1] + part_width(parts@[p - 1]),
                p == 0 ==> running == 0,
                running < 0xffff_ffff_ffff_0000,
            decreases np - p,
        {
            proof {
                if p_loadable::<M, H, E>(bytes@) {
                    let f = choose|f: PartitionedPhf<M, H, E>|
                        f.saveable() && partitioned_saved(f, bytes@);
                    lemma_header_ties(f, bytes@);
                    lemma_witness_align(f, bytes@, parts@, np as int, p as int, minimal);
                }
            }
            let loaded = match read_table_words::<E>(bytes, at, minimal) {
                Ok(l) => l,
                Err(e) => {
                    return Err(e);
                },
            };
            let t = loaded.0;
            let next = loaded.1;
            proof {
                if p_loadable::<M, H, E>(bytes@) {
                    let f = choose|f: PartitionedPhf<M, H, E>|
                        f.saveable() && partitioned_saved(f, bytes@);
                    // the freshly parsed block and the witness's block sit
                    // on the same words, so their geometry agrees
                    let ft = f.parts@[p as int];
                    assert(t.num_keys == ft.num_keys && t.table_size == ft.table_size) by {
                        assert(word_at(bytes@, at + 1) == block_words(t)[1]);
                        assert(word_at(bytes@, at + 1) == block_words(ft)[1]);
                        assert(word_at(bytes@, at + 2) == block_words(t)[2]);
                        assert(word_at(bytes@, at + 2) == block_words(ft)[2]);
                    }
                    assert(ft.minimal == minimal) by {
                        assert(f.wf());
                    }
                    // the witness's offset chain forces the running total
                    if p == 0 {
                        assert(f.offsets@[0] == 0);
                    } else {
                        assert(part_width(parts@[p - 1]) == part_width(f.parts@[p - 1]));
                        assert(f.offsets@[p as int] == f.offsets@[p - 1] + part_width(
                            f.parts@[p - 1]));
                    }
                    assert(offsets@[p as int] == f.offsets@[p as int]);
                    assert(running == f.offsets@[p as int]);
                    f.lemma_window_bound(p as int);
                    assert(f.table_size <= crate::partitioned_phf::MAX_TOTAL_WIDTH) by {
                        assert(f.saveable());
                    }
                }
            }
            if offsets[p] != running {
                return Err(LoadError::SerializationError);
            }
            let width = if minimal {
                t.num_keys
            } else {
                t.table_size
            };
            if running > crate::partitioned_phf::MAX_TOTAL_WIDTH - width {
                return Err(LoadError::SerializationError);
            }
            let ghost old_parts = parts@;
            parts.push(t);
            proof {
                lemma_blocks_words_stable(old_parts, parts@, p as int);
                assert(blocks_words(parts@, p + 1) =~= blocks_words(parts@, p as int)
                    + block_words(t));
                assert forall|j: int| 0 <= j < blocks_words(parts@, p + 1).len() implies word_at(
                    bytes@, 6 + np + j) == #[trigger] blocks_words(parts@, p + 1)[j] by {
                    let base = blocks_words(parts@, p as int).len();
                    if j >= base {
                        assert(blocks_words(parts@, p + 1)[j] == block_words(t)[j - base]);
                        assert(word_at(bytes@, at + (j - base)) == block_words(t)[j - base]);
                    }
                }
            }
            running = running + width;
            at = next;
            p = p + 1;
        }
        proof {
            if p_loadable::<M, H, E>(bytes@) {
                let f = choose|f: PartitionedPhf<M, H, E>|
                    f.saveable() && partitioned_saved(f, bytes@);
                lemma_header_ties(f, bytes@);
                lemma_witness_align(f, bytes@, parts@, np as int, np as int, minimal);
                let words_len = 6 + f.num_partitions + blocks_words(f.parts@,
                    f.parts@.len() as int).len();
                assert(total_words == words_len) by (nonlinear_arith)
                    requires
                        total == 8 * words_len,
                        total_words == total as int / 8,
                        total % 8 == 0,
                ;
                assert(at == total_words);
                assert(part_width(parts@[np - 1]) == part_width(f.parts@[np - 1]));
                assert(f.table_size == f.offsets@[np - 1] + part_width(f.parts@[np - 1])) by {
                    assert(f.wf());
                }
                assert(offsets@[np - 1] == f.offsets@[np - 1]);
                assert(running == f.table_size);
                assert(f.minimal ==> f.num_keys == f.table_size);
                assert(f.num_keys <= f.table_size);
            }
        }
        if at != total_words {
            return Err(LoadError::SerializationError);
        }
        if running != table_size {
            return Err(LoadError::SerializationError);
        }
        if minimal {
            if num_keys != table_size {
                return Err(LoadError::SerializationError);
            }
        } else {
            if num_keys > table_size {
                return Err(LoadError::SerializationError);
            }
        }
        let g = PartitionedPhf {
            parts,
            offsets,
            num_partitions: np64,
            seed,
            num_keys,
            table_size,
            minimal,
            _marker: core::marker::PhantomData,
        };
        proof {
            let w = partitioned_words(g);
            assert(w.len() == 6 + np + blocks_words(g.parts@, np as int).len());
            assert(bytes@.len() == 8 * w.len()) by (nonlinear_arith)
                requires
                    bytes@.len() % 8 == 0,
                    bytes@.len() / 8 == w.len(),
            ;
            assert forall|k: int| 0 <= k < w.len() implies word_at(bytes@, k) == #[trigger] w[
                k] by {
                if k < 6 {
                } else if k < 6 + np {
                    assert(w[k] == g.offsets@[k - 6]);
                } else {
                    assert(w[k] == blocks_words(g.parts@, np as int)[k - 6 - np]);
                }
            }
        }
        Ok(g)
    }
}

/// Blocks persisted at one place in one stream describe equal
/// sub-functions: the stored geometry words fix each block's length, so
/// the two block lists align, and the aligned words fix every field.
#[verifier::rlimit(100)]
proof fn lemma_blocks_align<E1: Encoder, E2: Encoder>(a: Seq<PhfTable<E1>>, b: Seq<PhfTable<E2>>,
    s: Seq<u8>, base: int, na: int, nb: int, p: int)
    requires
        0 <= base,
        0 <= p <= na,
        p <= nb,
        na <= a.len(),
        nb <= b.len(),
        E1::spec_tag() == E2::spec_tag(),
        forall|q: int| 0 <= q < na ==> (#[trigger] a[q]).encoder.pilots().len() == a[q].num_buckets,
        forall|q: int| 0 <= q < nb ==> (#[trigger] b[q]).encoder.pilots().len() == b[q].num_buckets,
        forall|q: int| 0 <= q < na ==> (#[trigger] a[q]).free_slots@.len() <= u64::MAX,
        forall|q: int| 0 <= q < nb ==> (#[trigger] b[q]).free_slots@.len() <= u64::MAX,
        forall|j: int|
            0 <= j < blocks_words(a, na).len() ==> word_at(s, base + j) == #[trigger] blocks_words(
                a, na)[j],
        forall|j: int|
            0 <= j < blocks_words(b, nb).len() ==> word_at(s, base + j) == #[trigger] blocks_words(
                b, nb)[j],
    ensures
        blocks_words(a, p).len() == blocks_words(b, p).len(),
        forall|q: int|
            0 <= q < p ==> {
                &&& (#[trigger] a[q]).num_keys == b[q].num_keys
                &&& a[q].table_size == b[q].table_size
                &&& a[q].num_buckets == b[q].num_buckets
                &&& a[q].encoder.pilots() == b[q].encoder.pilots()
                &&& a[q].free_slots@ == b[q].free_slots@
            },
    decreases p,
{
    if p > 0 {
        lemma_blocks_align::<E1, E2>(a, b, s, base, na, nb, p - 1);
        let base_a = blocks_words(a, p - 1).len();
        let ta = a[p - 1];
        let tb = b[p - 1];
        lemma_blocks_words_extends(a, p, na);
        lemma_blocks_words_extends(b, p, nb);
        assert(blocks_words(a, p) == blocks_words(a, p - 1) + block_words(ta));
        assert(blocks_words(b, p) == blocks_words(b, p - 1) + block_words(tb));
        assert forall|j: int| 0 <= j < block_words(ta).len() implies word_at(s, base + base_a + j)
            == #[trigger] block_words(ta)[j] by {
            assert(blocks_words(a, p)[base_a + j] == block_words(ta)[j]);
            assert(blocks_words(a, na)[base_a + j] == blocks_words(a, p)[base_a + j]);
        }
        assert forall|j: int| 0 <= j < block_words(tb).len() implies word_at(s, base + base_a + j)
            == #[trigger] block_words(tb)[j] by {
            assert(blocks_words(b, p)[base_a + j] == block_words(tb)[j]);
            assert(blocks_words(b, nb)[base_a + j] == blocks_words(b, p)[base_a + j]);
        }
        // the five geometry words agree, so the blocks have equal shape
        assert(block_words(ta)[1] == ta.num_keys && block_words(tb)[1] == tb.num_keys);
        assert(block_words(ta).len() >= 5 && block_words(tb).len() >= 5);
        assert(ta.num_keys == tb.num_keys && ta.table_size == tb.table_size && ta.num_buckets
            == tb.num_buckets && ta.free_slots@.len() == tb.free_slots@.len()) by {
            assert(block_words(ta)[1] == block_words(tb)[1]);
            assert(block_words(ta)[2] == block_words(tb)[2]);
            assert(block_words(ta)[3] == block_words(tb)[3]);
            assert(block_words(ta)[4] == block_words(tb)[4]);
        }
        assert(ta.encoder.pilots() =~= tb.encoder.pilots()) by {
            assert forall|i: int| 0 <= i < ta.encoder.pilots().len() implies ta.encoder.pilots()[i]
                == tb.encoder.pilots()[i] by {
                assert(block_words(ta)[5 + i] == ta.encoder.pilots()[i]);
                assert(block_words(tb)[5 + i] == tb.encoder.pilots()[i]);
                assert(block_words(ta)[5 + i] == block_words(tb)[5 + i]);
            }
        }
        assert(ta.free_slots@ =~= tb.free_slots@) by {
            let nb = ta.num_buckets as int;
            assert forall|i: int| 0 <= i < ta.free_slots@.len() implies ta.free_slots@[i]
                == tb.free_slots@[i] by {
                assert(block_words(ta)[5 + nb + i] == ta.free_slots@[i]);
                assert(block_words(tb)[5 + nb + i] == tb.free_slots@[i]);
                assert(block_words(ta)[5 + nb + i] == block_words(tb)[5 + nb + i]);
            }
        }
    }
}

/// The partitioned persistence round trip: a function loaded from the
/// bytes another function saved agrees with it on every key, and on the
/// key count, table length, seed, minimality, partition count, and
/// offsets.  Both directions go through the exact layout
/// [`partitioned_saved`], which pins every stored word.
#[verifier::rlimit(100)]
pub proof fn lemma_partitioned_round_trip<M: Minimality, H: Hasher, E1: Encoder, E2: Encoder>(
    f: PartitionedPhf<M, H, E1>, g: PartitionedPhf<M, H, E2>, s: Seq<u8>, key_bytes: Seq<u8>)
    requires
        E1::spec_tag() == E2::spec_tag(),
        f.wf(),
        g.wf(),
        partitioned_saved(f, s),
        partitioned_saved(g, s),
    ensures
        g.spec_eval(key_bytes) == f.spec_eval(key_bytes),
        g.num_keys == f.num_keys,
        g.table_size == f.table_size,
        g.seed == f.seed,
        g.minimal == f.minimal,
        g.num_partitions == f.num_partitions,
        g.offsets@ == f.offsets@,
{
    let wf_ = partitioned_words(f);
    let wg = partitioned_words(g);
    assert(wf_[1] == f.num_keys && wf_[2] == f.table_size && wf_[3] == f.seed && wf_[5]
        == f.num_partitions);
    assert(wg[1] == g.num_keys && wg[2] == g.table_size && wg[3] == g.seed && wg[5]
        == g.num_partitions);
    assert(word_at(s, 1) == wf_[1] && word_at(s, 2) == wf_[2] && word_at(s, 3) == wf_[3]
        && word_at(s, 4) == wf_[4] && word_at(s, 5) == wf_[5]);
    assert(word_at(s, 1) == wg[1] && word_at(s, 2) == wg[2] && word_at(s, 3) == wg[3] && word_at(
        s, 4) == wg[4] && word_at(s, 5) == wg[5]);
    assert(wf_[4] == (if f.minimal {
        1u64
    } else {
        0u64
    }));
    assert(wg[4] == (if g.minimal {
        1u64
    } else {
        0u64
    }));
    let np = f.num_partitions as int;
    assert(g.offsets@ =~= f.offsets@) by {
        assert forall|q: int| 0 <= q < np implies f.offsets@[q] == g.offsets@[q] by {
            assert(wf_[6 + q] == f.offsets@[q]);
            assert(wg[6 + q] == g.offsets@[q]);
            assert(word_at(s, 6 + q) == wf_[6 + q]);
            assert(word_at(s, 6 + q) == wg[6 + q]);
        }
    }
    assert(blocks_words(f.parts@, np).len() == blocks_words(g.parts@, np).len()) by {
        assert(wf_.len() == wg.len());
    }
    assert forall|j: int| 0 <= j < blocks_words(f.parts@, np).len() implies word_at(s, 6 + np + j)
        == #[trigger] blocks_words(f.parts@, np)[j] by {
        assert(wf_[6 + np + j] == blocks_words(f.parts@, np)[j]);
    }
    assert forall|j: int| 0 <= j < blocks_words(g.parts@, np).len() implies word_at(s, 6 + np + j)
        == #[trigger] blocks_words(g.parts@, np)[j] by {
        assert(wg[6 + np + j] == blocks_words(g.parts@, np)[j]);
    }
    lemma_blocks_align::<E1, E2>(f.parts@, g.parts@, s, 6 + np, np, np, np);
    let fp = H::spec_fingerprint(key_bytes, f.seed);
    let q = crate::partitioned_phf::spec_partition_of(fp.first, f.num_partitions) as int;
    crate::table::lemma_encoder_equivalence(f.parts@[q], g.parts@[q], fp);
}

/// Persisting a partitioned function is deterministic: two functions
/// whose built structures are equal — the same geometry, seed,
/// minimality, offsets, and per-partition pilots and free-slot maps —
/// flatten to bit-identical byte streams, in whatever runs they were
/// built and saved.
#[verifier::rlimit(100)]
pub proof fn lemma_partitioned_save_deterministic<M: Minimality, H: Hasher, E1: Encoder,
    E2: Encoder>(f1: PartitionedPhf<M, H, E1>, f2: PartitionedPhf<M, H, E2>, s1: Seq<u8>,
    s2: Seq<u8>)
    requires
        E1::spec_tag() == E2::spec_tag(),
        partitioned_saved(f1, s1),
        partitioned_saved(f2, s2),
        f1.num_keys == f2.num_keys,
        f1.table_size == f2.table_size,
        f1.seed == f2.seed,
        f1.minimal == f2.minimal,
        f1.num_partitions == f2.num_partitions,
        f1.offsets@ == f2.offsets@,
        f1.parts@.len() == f2.parts@.len(),
        forall|q: int|
            0 <= q < f1.parts@.len() ==> {
                &&& (#[trigger] f1.parts@[q]).num_keys == f2.parts@[q].num_keys
                &&& f1.parts@[q].table_size == f2.parts@[q].table_size
                &&& f1.parts@[q].num_buckets == f2.parts@[q].num_buckets
                &&& f1.parts@[q].encoder.pilots() == f2.parts@[q].encoder.pilots()
                &&& f1.parts@[q].free_slots@ == f2.parts@[q].free_slots@
            },
    ensures
        s1 == s2,
{
    lemma_blocks_words_congruent::<E1, E2>(f1.parts@, f2.parts@, f1.parts@.len() as int);
    let w1 = partitioned_words(f1);
    let w2 = partitioned_words(f2);
    assert(w1 =~= w2);
    assert(s1.len() == s2.len());
    assert forall|x: int| 0 <= x < s1.len() implies s1[x] == s2[x] by {
        vstd::arithmetic::div_mod::lemma_fundamental_div_mod(x, 8);
        let k = x / 8;
        assert(0 <= k < w1.len()) by (nonlinear_arith)
            requires
                8 * k + x % 8 == x,
                0 <= x % 8 < 8,
                0 <= x < 8 * w1.len(),
        ;
        assert(word_at(s1, k) == w1[k]);
        assert(word_at(s2, k) == w2[k]);
        let sub1 = s1.subrange(8 * k, 8 * k + 8);
        let sub2 = s2.subrange(8 * k, 8 * k + 8);
        assert(le_value(sub1) == le_value(sub2)) by {
            lemma_le_value_bound(sub1);
            lemma_le_value_bound(sub2);
            vstd::arithmetic::power2::lemma2_to64_rest();
        }
        lemma_le_value_injective(sub1, sub2);
        assert(s1[x] == sub1[x - 8 * k]);
        assert(s2[x] == sub2[x - 8 * k]);
    }
    assert(s1 =~= s2);
}

/// Equal per-partition structures persist to equal block word lists.
proof fn lemma_blocks_words_congruent<E1: Encoder, E2: Encoder>(a: Seq<PhfTable<E1>>,
    b: Seq<PhfTable<E2>>, k: int)
    requires
        E1::spec_tag() == E2::spec_tag(),
        k <= a.len(),
        a.len() == b.len(),
        forall|q: int|
            0 <= q < a.len() ==> {
                &&& (#[trigger] a[q]).num_keys == b[q].num_keys
                &&& a[q].table_size == b[q].table_size
                &&& a[q].num_buckets == b[q].num_buckets
                &&& a[q].encoder.pilots() == b[q].encoder.pilots()
                &&& a[q].free_slots@ == b[q].free_slots@
            },
    ensures
        blocks_words(a, k) == blocks_words(b, k),
    decreases k,
{
    if k > 0 {
        lemma_blocks_words_congruent::<E1, E2>(a, b, k - 1);
        assert(block_words(a[k - 1]) =~= block_words(b[k - 1]));
        assert(blocks_words(a, k) =~= blocks_words(b, k));
    }
}


} // verus!
