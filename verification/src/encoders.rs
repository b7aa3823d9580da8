//! Succinct encodings of the pilot sequence.  Three interchangeable
//! variants are provided: a two-level frequency dictionary
//! ([`DictionaryDictionary`]), per-block bit packing
//! ([`PartitionedCompact`]), and a low/high bit-plane split of the pilot
//! prefix sums ([`EliasFano`]).  Each one reconstructs the encoded sequence
//! exactly: `decode(encode(seq), i) == seq[i]` for every index.
use vstd::prelude::*;
use vstd::arithmetic::power2::{pow2, lemma_pow2_pos, lemma_pow2_strictly_increases, lemma2_to64};
use crate::bits::{bit_width, bits_value, value_bits, BitBuf, lemma_bits_value_of_value_bits,
    lemma_value_bits_len, lemma_subrange_of_extended};
use crate::search::PILOT_LIMIT;

verus! {

/// Largest pilot sequence an encoder accepts (`2^39` entries).
pub const MAX_PILOTS: u64 = 0x80_0000_0000;

/// A succinct, exactly invertible representation of a pilot sequence.
pub trait Encoder: Sized {
    /// The encoded sequence.
    spec fn pilots(&self) -> Seq<u64>;

    /// Internal consistency; established by `encode`, preserved forever.
    spec fn wf(&self) -> bool;

    /// Size of the representation in bits.
    spec fn space_bits(&self) -> int;

    /// The label of this variant.
    spec fn spec_name() -> Seq<char>;

    /// Distinguishes the variants in a persisted stream.
    spec fn spec_tag() -> u64;

    /// Returns [`Self::spec_name`].
    fn name() -> (r: &'static str)
        ensures
            r@ == Self::spec_name(),
    ;

    /// Returns [`Self::spec_tag`].
    fn tag() -> (r: u64)
        ensures
            r == Self::spec_tag(),
    ;

    /// Compresses a pilot sequence; the result decodes back exactly.
    fn encode(pilots: &Vec<u64>) -> (r: Self)
        requires
            pilots@.len() <= MAX_PILOTS,
            64 * pilots@.len() <= usize::MAX,
            forall|i: int| 0 <= i < pilots@.len() ==> #[trigger] pilots@[i] <= PILOT_LIMIT,
        ensures
            r.wf(),
            r.pilots() == pilots@,
    ;

    /// Recovers the pilot of bucket `i`.
    fn decode(&self, i: u64) -> (r: u64)
        requires
            self.wf(),
            i < self.pilots().len(),
        ensures
            r == self.pilots()[i as int],
    ;

    /// Number of encoded pilots.
    fn num_pilots(&self) -> (r: u64)
        requires
            self.wf(),
        ensures
            r == self.pilots().len(),
    ;

    /// Returns [`Self::space_bits`].
    fn num_bits(&self) -> (r: u64)
        requires
            self.wf(),
        ensures
            r == self.space_bits(),
    ;
}

/// Packs `values`, each below `2^width`, into consecutive `width`-bit
/// groups.
fn pack_fixed(values: &Vec<u64>, width: u64) -> (r: BitBuf)
    requires
        width <= 63,
        values@.len() * width <= usize::MAX,
        forall|i: int| 0 <= i < values@.len() ==> (#[trigger] values@[i] as nat) < pow2(
            width as nat),
    ensures
        r@.len() == values@.len() * width,
        forall|i: int|
            0 <= i < values@.len() ==> r@.subrange(i * width, (i + 1) * width) == value_bits(
                (#[trigger] values@[i]) as nat, width as nat),
{
    let mut r = BitBuf::new();
    let mut i: usize = 0;
    let n = values.len();
    while i < n
        invariant
            i <= n,
            n == values@.len(),
            width <= 63,
            n * width <= usize::MAX,
            forall|k: int| 0 <= k < n ==> (#[trigger] values@[k] as nat) < pow2(width as nat),
            r@.len() == i * width,
            forall|k: int|
                0 <= k < i ==> r@.subrange(k * width, (k + 1) * width) == value_bits(
                    (#[trigger] values@[k]) as nat, width as nat),
        decreases n - i,
    {
        let ghost old_bits = r@;
        proof {
            assert((i + 1) * width <= n * width) by (nonlinear_arith)
                requires
                    i + 1 <= n,
                    width >= 0,
            ;
            assert(i * width + width == (i + 1) * width) by (nonlinear_arith);
        }
        r.push_bits(values[i], width);
        proof {
            lemma_value_bits_len(values@[i as int] as nat, width as nat);
            assert forall|k: int| 0 <= k < i + 1 implies r@.subrange(k * width, (k + 1) * width)
                == value_bits((#[trigger] values@[k]) as nat, width as nat) by {
                assert((k < i ==> (k + 1) * width <= i * width) && 0 <= k * width && k * width
                    <= (k + 1) * width) by (nonlinear_arith)
                    requires
                        0 <= k <= i,
                        width >= 0,
                ;
                if k < i {
                    assert(forall|x: int| 0 <= x < old_bits.len() ==> old_bits[x] == r@[x]);
                    lemma_subrange_of_extended(old_bits, r@, k * width, (k + 1) * width);
                } else {
                    assert(r@.subrange(i * width, (i + 1) * width) =~= value_bits(
                        values@[i as int] as nat, width as nat));
                }
            }
        }
        i = i + 1;
    }
    r
}

/// Reads the `width`-bit group `i` of a packed buffer.
fn unpack_fixed(buf: &BitBuf, i: u64, width: u64, Ghost(n): Ghost<int>) -> (r: u64)
    requires
        width <= 63,
        0 <= i < n,
        buf@.len() == n * width,
        n * width <= usize::MAX,
    ensures
        r as nat == bits_value(buf@.subrange(i * width, (i + 1) * width)),
        (r as nat) < pow2(width as nat),
{
    if width == 0 {
        proof {
            assert(i * width == 0 && (i + 1) * width == 0) by (nonlinear_arith)
                requires
                    width == 0,
            ;
            assert(buf@.subrange(i * width, (i + 1) * width) =~= Seq::<bool>::empty());
            lemma2_to64();
        }
        return 0;
    }
    let total = buf.bit_len();
    proof {
        assert((i + 1) * width <= n * width && 0 <= i * width && i * width + width == (i + 1)
            * width && i <= i * width) by (nonlinear_arith)
            requires
                0 <= i,
                i + 1 <= n,
                width >= 1,
        ;
    }
    let off = (i as usize) * (width as usize);
    buf.get_bits(off, width)
}

/// The two-level dictionary encoder: frequent pilot values live in a small
/// front dictionary, every other occurrence is spilled to a fallback list,
/// and each bucket stores only a fixed-width rank.
pub struct DictionaryDictionary {
    /// The most frequent pilot values, ranks `0..front.len()`.
    front: Vec<u64>,
    /// Fallback values, one per occurrence, ranks `front.len()..`.
    exceptions: Vec<u64>,
    /// Bit width of one rank.
    width: u64,
    /// The packed ranks, one group per bucket.
    ranks: BitBuf,
    /// Number of encoded pilots.
    count: u64,
    /// The abstract sequence this value represents.
    pilots_g: Ghost<Seq<u64>>,
}

impl DictionaryDictionary {
    /// The rank stored for bucket `i`.
    pub closed spec fn rank_at(&self, i: int) -> nat {
        bits_value(self.ranks@.subrange(i * self.width, (i + 1) * self.width))
    }
}

/// Cap on the front dictionary size.
pub const FRONT_CAP: usize = 256;

impl Encoder for DictionaryDictionary {
    closed spec fn pilots(&self) -> Seq<u64> {
        self.pilots_g@
    }

    closed spec fn wf(&self) -> bool {
        &&& self.pilots_g@.len() == self.count
        &&& self.count <= MAX_PILOTS
        &&& self.width <= 63
        &&& self.front@.len() <= FRONT_CAP
        &&& self.exceptions@.len() <= self.count
        &&& self.ranks@.len() == self.count * self.width
        &&& forall|i: int|
            0 <= i < self.count ==> #[trigger] self.rank_at(i) < self.front@.len()
                + self.exceptions@.len() && self.pilots_g@[i] == (if self.rank_at(i)
                < self.front@.len() {
                self.front@[self.rank_at(i) as int]
            } else {
                self.exceptions@[self.rank_at(i) - self.front@.len()]
            })
    }

    closed spec fn space_bits(&self) -> int {
        (self.ranks@.len() + 64 * (self.front@.len() + self.exceptions@.len())) as int
    }

    open spec fn spec_name() -> Seq<char> {
        "dictionary_dictionary"@
    }

    open spec fn spec_tag() -> u64 {
        1
    }

    fn name() -> (r: &'static str) {
        "dictionary_dictionary"
    }

    fn tag() -> (r: u64) {
        1
    }

    #[verifier::loop_isolation(false)]
    fn encode(pilots: &Vec<u64>) -> (r: Self) {
        let n = pilots.len();
        // distinct values with occurrence counts
        let mut dvals: Vec<u64> = Vec::new();
        let mut dcnt: Vec<u64> = Vec::new();
        let mut i: usize = 0;
        while i < n
            invariant
                i <= n,
                dvals@.len() == dcnt@.len(),
                forall|j: int| 0 <= j < dcnt@.len() ==> #[trigger] dcnt@[j] <= i,
            decreases n - i,
        {
            let p = pilots[i];
            let mut found = false;
            let mut j: usize = 0;
            while j < dvals.len() && !found
                invariant
                    j <= dvals@.len(),
                    i < n,
                    dvals@.len() == dcnt@.len(),
                    forall|jj: int|
                        0 <= jj < dcnt@.len() ==> #[trigger] dcnt@[jj] <= i + (if found {
                            1int
                        } else {
                            0int
                        }),
                decreases dvals@.len() - j + (if found {
                    0int
                } else {
                    1int
                }),
            {
                if dvals[j] == p {
                    let c = dcnt[j];
                    dcnt[j] = c + 1;
                    found = true;
                } else {
                    j = j + 1;
                }
            }
            if !found {
                dvals.push(p);
                dcnt.push(1);
            }
            i = i + 1;
        }
        // pick up to FRONT_CAP values, most frequent first (ties by value)
        let mut used: Vec<bool> = crate::search::make_filled_bools(dvals.len(), false);
        let mut front: Vec<u64> = Vec::new();
        let mut round: usize = 0;
        while round < FRONT_CAP && round < dvals.len()
            invariant
                used@.len() == dvals@.len(),
                dvals@.len() == dcnt@.len(),
                front@.len() == round,
                round <= FRONT_CAP,
            decreases FRONT_CAP - round,
        {
            let mut best: usize = 0;
            let mut best_set = false;
            let mut j: usize = 0;
            while j < dvals.len()
                invariant
                    j <= dvals@.len(),
                    used@.len() == dvals@.len(),
                    dvals@.len() == dcnt@.len(),
                    best_set ==> best < dvals@.len(),
                decreases dvals@.len() - j,
            {
                if !used[j] {
                    if !best_set {
                        best = j;
                        best_set = true;
                    } else {
                        let better = dcnt[j] > dcnt[best] || (dcnt[j] == dcnt[best] && dvals[j]
                            < dvals[best]);
                        if better {
                            best = j;
                        }
                    }
                }
                j = j + 1;
            }
            if !best_set {
                break ;
            }
            used[best] = true;
            front.push(dvals[best]);
            round = round + 1;
        }
        // assign ranks; unknown values spill to the fallback list
        let mut ranks_v: Vec<u64> = Vec::new();
        let mut exceptions: Vec<u64> = Vec::new();
        let mut i: usize = 0;
        while i < n
            invariant
                i <= n,
                ranks_v@.len() == i,
                exceptions@.len() <= i,
                front@.len() <= FRONT_CAP,
                forall|k: int|
                    0 <= k < i ==> #[trigger] ranks_v@[k] < front@.len() + exceptions@.len() && (
                    if ranks_v@[k] < front@.len() {
                        front@[ranks_v@[k] as int] == pilots@[k]
                    } else {
                        exceptions@[ranks_v@[k] - front@.len()] == pilots@[k]
                    }),
            decreases n - i,
        {
            let p = pilots[i];
            let mut rk: u64 = 0;
            let mut found = false;
            let mut j: usize = 0;
            while j < front.len() && !found
                invariant
                    j <= front@.len(),
                    found ==> rk < front@.len() && front@[rk as int] == pilots@[i as int],
                decreases front@.len() - j + (if found {
                    0int
                } else {
                    1int
                }),
            {
                if front[j] == p {
                    rk = j as u64;
                    found = true;
                } else {
                    j = j + 1;
                }
            }
            let ghost old_exc = exceptions@;
            if !found {
                exceptions.push(p);
                rk = front.len() as u64 + exceptions.len() as u64 - 1;
            }
            ranks_v.push(rk);
            proof {
                assert(ranks_v@[i as int] == rk);
                if !found {
                    assert(exceptions@[rk - front@.len()] == pilots@[i as int]);
                }
                assert forall|k: int| 0 <= k < i + 1 implies #[trigger] ranks_v@[k] < front@.len()
                    + exceptions@.len() && (if ranks_v@[k] < front@.len() {
                    front@[ranks_v@[k] as int] == pilots@[k]
                } else {
                    exceptions@[ranks_v@[k] - front@.len()] == pilots@[k]
                }) by {
                }
            }
            i = i + 1;
        }
        // pack the ranks at the least width that can hold them all
        let total = front.len() as u64 + exceptions.len() as u64;
        let width = if total <= 1 {
            0
        } else {
            bit_width(total - 1)
        };
        proof {
            lemma2_to64();
            if total > 1 {
                assert(((total - 1) as nat) < pow2(width as nat));
            }
            assert(width <= 63) by {
                if width == 64 {
                    vstd::arithmetic::power2::lemma2_to64_rest();
                    assert(pow2(63) <= (total - 1) as nat);
                }
            }
            assert forall|k: int| 0 <= k < ranks_v@.len() implies (#[trigger] ranks_v@[
                k] as nat) < pow2(width as nat) by {
                lemma_pow2_pos(width as nat);
                assert(ranks_v@[k] < total);
                if total <= 1 {
                    assert(ranks_v@[k] == 0);
                }
            }
            assert(ranks_v@.len() * width <= usize::MAX) by (nonlinear_arith)
                requires
                    width <= 63,
                    64 * ranks_v@.len() <= usize::MAX,
            ;
        }
        let ranks = pack_fixed(&ranks_v, width);
        let r = DictionaryDictionary {
            front,
            exceptions,
            width,
            ranks,
            count: n as u64,
            pilots_g: Ghost(pilots@),
        };
        proof {
            assert forall|k: int| 0 <= k < r.count implies #[trigger] r.rank_at(k)
                < r.front@.len() + r.exceptions@.len() && r.pilots_g@[k] == (if r.rank_at(k)
                < r.front@.len() {
                r.front@[r.rank_at(k) as int]
            } else {
                r.exceptions@[r.rank_at(k) - r.front@.len()]
            }) by {
                lemma_bits_value_of_value_bits(ranks_v@[k] as nat, width as nat);
                vstd::arithmetic::div_mod::lemma_small_mod(ranks_v@[k] as nat,
                    pow2(width as nat));
                assert(r.rank_at(k) == ranks_v@[k]);
            }
        }
        r
    }

    fn decode(&self, i: u64) -> (r: u64) {
        let total_bits = self.ranks.bit_len();
        let rk = unpack_fixed(&self.ranks, i, self.width, Ghost(self.count as int));
        proof {
            assert(rk as nat == self.rank_at(i as int));
        }
        let fl = self.front.len();
        let el = self.exceptions.len();
        if rk < fl as u64 {
            self.front[rk as usize]
        } else {
            self.exceptions[(rk - fl as u64) as usize]
        }
    }

    fn num_pilots(&self) -> (r: u64) {
        self.count
    }

    fn num_bits(&self) -> (r: u64) {
        proof {
            assert(self.count * self.width <= MAX_PILOTS * 63) by (nonlinear_arith)
                requires
                    self.count <= MAX_PILOTS,
                    self.width <= 63,
            ;
        }
        let packed = self.ranks.bit_len() as u64;
        packed + 64 * (self.front.len() as u64 + self.exceptions.len() as u64)
    }
}

/// Size of one sub-range of the partitioned compact encoder.
pub const BLOCK: u64 = 256;

/// Number of pilots in block `j` of a sequence of `count` pilots.
pub open spec fn block_size(count: int, j: int) -> int {
    if count - j * (BLOCK as int) < (BLOCK as int) {
        count - j * (BLOCK as int)
    } else {
        BLOCK as int
    }
}

/// Total bits of the first `k` packed blocks.
pub open spec fn blocks_bits(blocks: Seq<Seq<bool>>, k: int) -> int
    decreases k,
{
    if k <= 0 {
        0
    } else {
        blocks_bits(blocks, k - 1) + blocks[k - 1].len()
    }
}

/// The per-block bit packer: pilots are split into sub-ranges of [`BLOCK`]
/// buckets, and each sub-range is packed at the least bit width that holds
/// its largest pilot.
pub struct PartitionedCompact {
    /// Bit width of each block.
    widths: Vec<u64>,
    /// One packed buffer per block.
    blocks: Vec<BitBuf>,
    /// Number of encoded pilots.
    count: u64,
    /// The abstract sequence this value represents.
    pilots_g: Ghost<Seq<u64>>,
}

impl Encoder for PartitionedCompact {
    closed spec fn pilots(&self) -> Seq<u64> {
        self.pilots_g@
    }

    closed spec fn wf(&self) -> bool {
        &&& self.pilots_g@.len() == self.count
        &&& self.count <= MAX_PILOTS
        &&& self.widths@.len() == self.blocks@.len()
        &&& (self.count + BLOCK - 1) as int / (BLOCK as int) == self.widths@.len()
        &&& forall|j: int|
            0 <= j < self.widths@.len() ==> {
                let w = #[trigger] self.widths@[j];
                &&& w <= 63
                &&& self.blocks@[j]@.len() == block_size(self.count as int, j) * w
                &&& forall|t: int|
                    0 <= t < block_size(self.count as int, j) ==> {
                        &&& self.blocks@[j]@.subrange(t * w, (t + 1) * w) == value_bits(
                            (#[trigger] self.pilots_g@[j * (BLOCK as int) + t]) as nat, w as nat)
                        &&& (self.pilots_g@[j * (BLOCK as int) + t] as nat) < pow2(w as nat)
                    }
            }
    }

    closed spec fn space_bits(&self) -> int {
        blocks_bits(self.blocks@.map_values(|b: BitBuf| b@), self.blocks@.len() as int) + 64
            * self.widths@.len()
    }

    open spec fn spec_name() -> Seq<char> {
        "partitioned_compact"@
    }

    open spec fn spec_tag() -> u64 {
        2
    }

    fn name() -> (r: &'static str) {
        "partitioned_compact"
    }

    fn tag() -> (r: u64) {
        2
    }

    #[verifier::loop_isolation(false)]
    #[verifier::rlimit(100)]
    fn encode(pilots: &Vec<u64>) -> (r: Self) {
        let n = pilots.len();
        let b = BLOCK as usize;
        let nblocks = (n + b - 1) / b;
        let ghost blk = BLOCK as int;
        let mut widths: Vec<u64> = Vec::new();
        let mut blocks: Vec<BitBuf> = Vec::new();
        let mut j: usize = 0;
        proof {
            assert(64 * n <= usize::MAX);
        }
        while j < nblocks
            invariant
                j <= nblocks,
                widths@.len() == j,
                blocks@.len() == j,
                forall|jj: int|
                    0 <= jj < j ==> {
                        let w = #[trigger] widths@[jj];
                        &&& w <= 63
                        &&& blocks@[jj]@.len() == block_size(n as int, jj) * w
                        &&& forall|t: int|
                            0 <= t < block_size(n as int, jj) ==> {
                                &&& blocks@[jj]@.subrange(t * w, (t + 1) * w) == value_bits(
                                    (#[trigger] pilots@[jj * blk + t]) as nat, w as nat)
                                &&& (pilots@[jj * blk + t] as nat) < pow2(w as nat)
                            }
                    },
            decreases nblocks - j,
        {
            proof {
                assert(j * blk + blk == (j + 1) * blk && (j + 1) * blk <= nblocks * blk) by (
                nonlinear_arith)
                    requires
                        j + 1 <= nblocks,
                        blk == 256,
                ;
                vstd::arithmetic::div_mod::lemma_fundamental_div_mod((n + blk - 1) as int, blk);
                assert(nblocks * blk <= n + blk - 1) by (nonlinear_arith)
                    requires
                        blk == 256,
                        nblocks == (n + blk - 1) / blk,
                        blk * ((n + blk - 1) / blk) + (n + blk - 1) % blk == n + blk - 1,
                        (n + blk - 1) % blk >= 0,
                ;
                assert(j * blk < n);
            }
            let start = j * b;
            let stop = if n - start < b {
                n
            } else {
                start + b
            };
            proof {
                assert(stop - start == block_size(n as int, j as int));
            }
            // copy the block and find its least sufficient width
            let mut vals: Vec<u64> = Vec::new();
            let mut w: u64 = 0;
            let mut i: usize = start;
            while i < stop
                invariant
                    start <= i <= stop <= n,
                    w <= 63,
                    vals@.len() == i - start,
                    forall|t: int| 0 <= t < i - start ==> #[trigger] vals@[t] == pilots@[start + t],
                    forall|t: int|
                        0 <= t < i - start ==> (#[trigger] vals@[t] as nat) < pow2(w as nat),
                decreases stop - i,
            {
                let p = pilots[i];
                let bw = bit_width(p);
                proof {
                    assert(bw <= 17) by {
                        if bw > 17 {
                            lemma2_to64();
                            vstd::arithmetic::power2::lemma2_to64_rest();
                            if bw - 1 > 17 {
                                lemma_pow2_strictly_increases(17, (bw - 1) as nat);
                            }
                            assert(pow2(17) <= pow2((bw - 1) as nat));
                            assert(p <= PILOT_LIMIT);
                        }
                    }
                }
                if bw > w {
                    proof {
                        assert forall|t: int|
                            0 <= t < i - start implies (#[trigger] vals@[t] as nat) < pow2(
                            bw as nat) by {
                            lemma_pow2_strictly_increases(w as nat, bw as nat);
                        }
                    }
                    w = bw;
                }
                vals.push(p);
                proof {
                    assert(vals@[i - start] == p);
                    if bw < w {
                        lemma_pow2_strictly_increases(bw as nat, w as nat);
                    }
                }
                i = i + 1;
            }
            proof {
                assert(vals@.len() * w <= usize::MAX) by (nonlinear_arith)
                    requires
                        vals@.len() <= 256,
                        w <= 63,
                        usize::MAX >= 0xffff,
                ;
            }
            let packed = pack_fixed(&vals, w);
            widths.push(w);
            blocks.push(packed);
            proof {
                assert forall|jj: int| 0 <= jj < j + 1 implies {
                    let ww = #[trigger] widths@[jj];
                    &&& ww <= 63
                    &&& blocks@[jj]@.len() == block_size(n as int, jj) * ww
                    &&& forall|t: int|
                        0 <= t < block_size(n as int, jj) ==> {
                            &&& blocks@[jj]@.subrange(t * ww, (t + 1) * ww) == value_bits(
                                (#[trigger] pilots@[jj * blk + t]) as nat, ww as nat)
                            &&& (pilots@[jj * blk + t] as nat) < pow2(ww as nat)
                        }
                } by {
                    if jj == j {
                        assert forall|t: int| 0 <= t < block_size(n as int, jj) implies {
                            &&& blocks@[jj]@.subrange(t * w, (t + 1) * w) == value_bits(
                                (#[trigger] pilots@[jj * blk + t]) as nat, w as nat)
                            &&& (pilots@[jj * blk + t] as nat) < pow2(w as nat)
                        } by {
                            assert(vals@[t] == pilots@[start + t]);
                        }
                    }
                }
            }
            j = j + 1;
        }
        proof {
            if n > 0 {
                vstd::arithmetic::div_mod::lemma_fundamental_div_mod((n + blk - 1) as int, blk);
            }
        }
        PartitionedCompact { widths, blocks, count: n as u64, pilots_g: Ghost(pilots@) }
    }

    fn decode(&self, i: u64) -> (r: u64) {
        let j = (i / BLOCK) as usize;
        let t = i % BLOCK;
        proof {
            vstd::arithmetic::div_mod::lemma_fundamental_div_mod(i as int, BLOCK as int);
            vstd::arithmetic::div_mod::lemma_fundamental_div_mod((self.count + BLOCK - 1) as int,
                BLOCK as int);
            let wl = self.widths@.len() as int;
            assert(256 * wl + 255 >= self.count + 255) by (nonlinear_arith)
                requires
                    256 * ((self.count + 255) as int / 256) + ((self.count + 255) as int % 256)
                        == self.count + 255,
                    ((self.count + 255) as int % 256) < 256,
                    wl == (self.count + 255) as int / 256,
            ;
            assert(j < wl) by (nonlinear_arith)
                requires
                    256 * (j as int) + (t as int) == i as int,
                    0 <= t,
                    i < self.count,
                    self.count <= 256 * wl,
            ;
            assert(block_size(self.count as int, j as int) * self.widths@[j as int] <= 256
                * 63) by (nonlinear_arith)
                requires
                    0 <= block_size(self.count as int, j as int) <= 256,
                    self.widths@[j as int] <= 63,
            ;
        }
        let w = self.widths[j];
        let v = unpack_fixed(&self.blocks[j], t, w, Ghost(block_size(self.count as int,
            j as int)));
        proof {
            lemma_bits_value_of_value_bits(self.pilots_g@[i as int] as nat, w as nat);
            vstd::arithmetic::div_mod::lemma_small_mod(self.pilots_g@[i as int] as nat,
                pow2(w as nat));
        }
        v
    }

    fn num_pilots(&self) -> (r: u64) {
        self.count
    }

    #[verifier::loop_isolation(false)]
    fn num_bits(&self) -> (r: u64) {
        let mut acc: u64 = 0;
        let mut j: usize = 0;
        let nb = self.blocks.len();
        while j < nb
            invariant
                j <= nb,
                acc == blocks_bits(self.blocks@.map_values(|b: BitBuf| b@), j as int),
                acc <= j * (64 * (BLOCK as int)),
            decreases nb - j,
        {
            proof {
                assert(self.blocks@[j as int]@.len() <= 64 * (BLOCK as int)) by {
                    assert(block_size(self.count as int, j as int) * self.widths@[j as int] <= 256
                        * 63) by (nonlinear_arith)
                        requires
                            0 <= block_size(self.count as int, j as int) <= 256,
                            self.widths@[j as int] <= 63,
                    ;
                }
                assert((j + 1) * (64 * (BLOCK as int)) == j * (64 * (BLOCK as int)) + 64 * (
                BLOCK as int)) by (nonlinear_arith);
                assert(nb * (64 * (BLOCK as int)) <= MAX_PILOTS * 64 * 256) by (nonlinear_arith)
                    requires
                        nb <= MAX_PILOTS,
                ;
                assert(j * (64 * (BLOCK as int)) <= nb * (64 * (BLOCK as int))) by (
                nonlinear_arith)
                    requires
                        j <= nb,
                ;
            }
            acc = acc + self.blocks[j].bit_len() as u64;
            j = j + 1;
        }
        acc + 64 * (self.widths.len() as u64)
    }
}

/// The low/high bit-plane encoder: the pilot prefix sums form a
/// non-decreasing sequence; each sum is split into `low_width` low bits,
/// stored packed, and a high part, reachable in constant time through the
/// materialised select index of the high bit-plane.
pub struct EliasFano {
    /// Number of low bits per element.
    low_width: u64,
    /// The packed low bit-planes.
    lows: BitBuf,
    /// Select index: position of the `i`-th one in the high bit-plane,
    /// that is `high(i) + i`.
    high_sel: Vec<u64>,
    /// Number of encoded pilots.
    count: u64,
    /// The abstract sequence this value represents.
    pilots_g: Ghost<Seq<u64>>,
    /// The prefix sums of the pilots.
    cums_g: Ghost<Seq<u64>>,
}

impl Encoder for EliasFano {
    closed spec fn pilots(&self) -> Seq<u64> {
        self.pilots_g@
    }

    closed spec fn wf(&self) -> bool {
        let l = self.low_width;
        &&& self.pilots_g@.len() == self.count
        &&& self.cums_g@.len() == self.count
        &&& self.high_sel@.len() == self.count
        &&& self.count <= MAX_PILOTS
        &&& l <= 63
        &&& self.lows@.len() == self.count * l
        &&& (self.count > 0 ==> self.cums_g@[0] == self.pilots_g@[0])
        &&& forall|i: int|
            1 <= i < self.count ==> #[trigger] self.cums_g@[i] == self.cums_g@[i - 1]
                + self.pilots_g@[i]
        &&& forall|i: int|
            0 <= i < self.count ==> #[trigger] self.high_sel@[i] == self.cums_g@[i] as nat / pow2(
                l as nat) + i
        &&& forall|i: int|
            0 <= i < self.count ==> self.lows@.subrange(i * l, (i + 1) * l) == value_bits(
                (#[trigger] self.cums_g@[i]) as nat % pow2(l as nat), l as nat)
    }

    closed spec fn space_bits(&self) -> int {
        (self.lows@.len() + 64 * self.high_sel@.len()) as int
    }

    open spec fn spec_name() -> Seq<char> {
        "elias_fano"@
    }

    open spec fn spec_tag() -> u64 {
        3
    }

    fn name() -> (r: &'static str) {
        "elias_fano"
    }

    fn tag() -> (r: u64) {
        3
    }

    #[verifier::loop_isolation(false)]
    #[verifier::rlimit(100)]
    fn encode(pilots: &Vec<u64>) -> (r: Self) {
        let n = pilots.len();
        // prefix sums; each is at most `n * (PILOT_LIMIT + 1)`
        let mut cums: Vec<u64> = Vec::new();
        let mut cum: u64 = 0;
        let mut i: usize = 0;
        proof {
            assert(n * (0x10001 as int) <= 0x80_0000_0000 * 0x10001) by (nonlinear_arith)
                requires
                    n <= 0x80_0000_0000,
            ;
        }
        while i < n
            invariant
                i <= n,
                cums@.len() == i,
                cum <= i * 0x10001,
                i > 0 ==> cum == cums@[i - 1],
                (i == 0) ==> cum == 0,
                forall|k: int| 0 <= k < i ==> #[trigger] cums@[k] <= (k + 1) * 0x10001,
                i > 0 ==> cums@[0] == pilots@[0],
                forall|k: int| 1 <= k < i ==> #[trigger] cums@[k] == cums@[k - 1] + pilots@[k],
            decreases n - i,
        {
            proof {
                assert(i * 0x10001 + 0x10001 == (i + 1) * 0x10001 && (i + 1) * 0x10001 <= n
                    * 0x10001) by (nonlinear_arith)
                    requires
                        i + 1 <= n,
                ;
            }
            cum = cum + pilots[i];
            cums.push(cum);
            i = i + 1;
        }
        // choose the low width from the average value
        let avg = if n == 0 {
            0
        } else {
            cum / (n as u64)
        };
        let low_width = bit_width(avg);
        proof {
            assert(low_width <= 63) by {
                if low_width >= 64 {
                    vstd::arithmetic::power2::lemma2_to64_rest();
                    assert(pow2(63) <= avg as nat);
                }
            }
        }
        let p2l = 1u64 << low_width;
        proof {
            vstd::bits::lemma_u64_pow2_no_overflow(low_width as nat);
            vstd::bits::lemma_u64_shl_is_mul(1u64, low_width);
            lemma_pow2_pos(low_width as nat);
        }
        // split every prefix sum into its planes
        let mut lows_v: Vec<u64> = Vec::new();
        let mut high_sel: Vec<u64> = Vec::new();
        let mut i: usize = 0;
        while i < n
            invariant
                i <= n,
                lows_v@.len() == i,
                high_sel@.len() == i,
                p2l == pow2(low_width as nat),
                p2l >= 1,
                cums@.len() == n,
                forall|k: int| 0 <= k < i ==> #[trigger] lows_v@[k] == cums@[k] % p2l,
                forall|k: int|
                    0 <= k < i ==> #[trigger] high_sel@[k] == cums@[k] as nat / pow2(
                        low_width as nat) + k,
                forall|k: int|
                    0 <= k < i ==> (#[trigger] lows_v@[k] as nat) < pow2(low_width as nat),
            decreases n - i,
        {
            let c = cums[i];
            let lo = c % p2l;
            let hi = c / p2l;
            high_sel.push(hi + i as u64);
            lows_v.push(lo);
            i = i + 1;
        }
        proof {
            assert(lows_v@.len() * low_width <= usize::MAX) by (nonlinear_arith)
                requires
                    low_width <= 63,
                    64 * lows_v@.len() <= usize::MAX,
            ;
        }
        let lows = pack_fixed(&lows_v, low_width);
        let r = EliasFano {
            low_width,
            lows,
            high_sel,
            count: n as u64,
            pilots_g: Ghost(pilots@),
            cums_g: Ghost(cums@),
        };
        proof {
            assert forall|k: int| 0 <= k < r.count implies r.lows@.subrange(k * r.low_width, (k
                + 1) * r.low_width) == value_bits((#[trigger] r.cums_g@[k]) as nat % pow2(
                r.low_width as nat), r.low_width as nat) by {
                assert(lows_v@[k] == cums@[k] % p2l);
            }
        }
        r
    }

    #[verifier::rlimit(100)]
    fn decode(&self, i: u64) -> (r: u64) {
        let l = self.low_width;
        let total = self.lows.bit_len();
        let p2l = 1u64 << l;
        proof {
            vstd::bits::lemma_u64_pow2_no_overflow(l as nat);
            vstd::bits::lemma_u64_shl_is_mul(1u64, l);
            lemma_pow2_pos(l as nat);
        }
        let cur = self.plane_value(i, p2l);
        if i == 0 {
            cur
        } else {
            let prev = self.plane_value(i - 1, p2l);
            proof {
                assert(self.cums_g@[i as int] == self.cums_g@[i as int - 1]
                    + self.pilots_g@[i as int]);
            }
            cur - prev
        }
    }

    fn num_pilots(&self) -> (r: u64) {
        self.count
    }

    fn num_bits(&self) -> (r: u64) {
        proof {
            assert(self.count * self.low_width <= MAX_PILOTS * 63) by (nonlinear_arith)
                requires
                    self.count <= MAX_PILOTS,
                    self.low_width <= 63,
            ;
            assert(64 * self.high_sel@.len() <= 64 * MAX_PILOTS) by (nonlinear_arith)
                requires
                    self.high_sel@.len() <= MAX_PILOTS,
            ;
        }
        self.lows.bit_len() as u64 + 64 * (self.high_sel.len() as u64)
    }
}

impl EliasFano {
    /// Reconstructs prefix sum `i` from its two planes.
    fn plane_value(&self, i: u64, p2l: u64) -> (r: u64)
        requires
            self.wf(),
            i < self.count,
            p2l == pow2(self.low_width as nat),
        ensures
            r == self.cums_g@[i as int],
    {
        proof {
            lemma_pow2_pos(self.low_width as nat);
        }
        let total = self.lows.bit_len();
        let hs_len = self.high_sel.len();
        let lo = unpack_fixed(&self.lows, i, self.low_width, Ghost(self.count as int));
        proof {
            assert(self.high_sel@[i as int] == self.cums_g@[i as int] as nat / pow2(
                self.low_width as nat) + i);
        }
        let hi = self.high_sel[i as usize] - i;
        proof {
            let c = self.cums_g@[i as int] as nat;
            let l = self.low_width as nat;
            assert(self.lows@.subrange(i * self.low_width, (i + 1) * self.low_width)
                == value_bits(c % pow2(l), l));
            vstd::arithmetic::div_mod::lemma_fundamental_div_mod(c as int, pow2(l) as int);
            vstd::arithmetic::div_mod::lemma_mod_bound(c as int, pow2(l) as int);
            lemma_bits_value_of_value_bits(c % pow2(l), l);
            vstd::arithmetic::div_mod::lemma_small_mod(c % pow2(l), pow2(l));
            assert(lo as nat == c % pow2(l));
            assert(hi as nat == c / pow2(l));
            assert((c / pow2(l)) * pow2(l) + c % pow2(l) == c) by (nonlinear_arith)
                requires
                    pow2(l) > 0,
                    pow2(l) as int * ((c as int) / (pow2(l) as int)) + (c as int) % (
                    pow2(l) as int) == c as int,
            ;
        }
        hi * p2l + lo
    }
}


} // verus!
