//! A growable bit string with fixed-width reads and writes, shared by the
//! pilot encoders.  A group of `w` bits is interpreted as an unsigned value
//! in little-endian order (the first bit is the least significant).
use vstd::prelude::*;
use vstd::arithmetic::power2::{pow2, lemma_pow2_adds, lemma_pow2_pos, lemma2_to64};
use vstd::bits::{lemma_u64_pow2_no_overflow, lemma_u64_shl_is_mul, lemma_u64_shr_is_div};

verus! {

/// Value of a bit sequence read in little-endian order.
pub open spec fn bits_value(s: Seq<bool>) -> nat
    decreases s.len(),
{
    if s.len() == 0 {
        0
    } else {
        (if s[0] {
            1nat
        } else {
            0nat
        }) + 2 * bits_value(s.skip(1))
    }
}

/// The `w` low bits of `v`, least significant first.
pub open spec fn value_bits(v: nat, w: nat) -> Seq<bool>
    decreases w,
{
    if w == 0 {
        Seq::empty()
    } else {
        seq![v % 2 == 1] + value_bits(v / 2, (w - 1) as nat)
    }
}

pub proof fn lemma_value_bits_len(v: nat, w: nat)
    ensures
        value_bits(v, w).len() == w,
    decreases w,
{
    if w > 0 {
        lemma_value_bits_len(v / 2, (w - 1) as nat);
    }
}

/// Reading back the bits of `v` recovers `v` modulo `2^w`.
pub proof fn lemma_bits_value_of_value_bits(v: nat, w: nat)
    ensures
        bits_value(value_bits(v, w)) == v % pow2(w),
    decreases w,
{
    if w == 0 {
        assert(pow2(0) == 1) by {
            lemma2_to64();
        }
    } else {
        lemma_bits_value_of_value_bits(v / 2, (w - 1) as nat);
        lemma_value_bits_len(v / 2, (w - 1) as nat);
        let s = value_bits(v, w);
        assert(s.skip(1) =~= value_bits(v / 2, (w - 1) as nat));
        assert(pow2(w) == 2 * pow2((w - 1) as nat)) by {
            lemma_pow2_adds(1, (w - 1) as nat);
            lemma2_to64();
        }
        lemma_pow2_pos((w - 1) as nat);
        let h = pow2((w - 1) as nat) as int;
        vstd::arithmetic::div_mod::lemma_breakdown(v as int, 2, h);
    }
}

pub proof fn lemma_bits_value_bound(s: Seq<bool>)
    ensures
        bits_value(s) < pow2(s.len()),
    decreases s.len(),
{
    if s.len() == 0 {
        assert(pow2(0) == 1) by {
            lemma2_to64();
        }
    } else {
        lemma_bits_value_bound(s.skip(1));
        assert(pow2(s.len()) == 2 * pow2((s.len() - 1) as nat)) by {
            lemma_pow2_adds(1, (s.len() - 1) as nat);
            lemma2_to64();
        }
    }
}

/// Concatenation splits the value: the first part holds the low bits.
pub proof fn lemma_bits_value_concat(a: Seq<bool>, b: Seq<bool>)
    ensures
        bits_value(a + b) == bits_value(a) + pow2(a.len()) * bits_value(b),
    decreases a.len(),
{
    if a.len() == 0 {
        assert(a + b =~= b);
        assert(pow2(0) == 1) by {
            lemma2_to64();
        }
    } else {
        lemma_bits_value_concat(a.skip(1), b);
        assert((a + b).skip(1) =~= a.skip(1) + b);
        assert(pow2(a.len()) == 2 * pow2((a.len() - 1) as nat)) by {
            lemma_pow2_adds(1, (a.len() - 1) as nat);
            lemma2_to64();
        }
        assert(2 * (bits_value(a.skip(1)) + pow2((a.len() - 1) as nat) * bits_value(b)) == 2
            * bits_value(a.skip(1)) + (2 * pow2((a.len() - 1) as nat)) * bits_value(b))
            by (nonlinear_arith);
    }
}

/// Appending one bit adds its weighted value.
pub proof fn lemma_bits_value_push(s: Seq<bool>, b: bool)
    ensures
        bits_value(s.push(b)) == bits_value(s) + pow2(s.len()) * (if b {
            1nat
        } else {
            0nat
        }),
{
    assert(s.push(b) =~= s + seq![b]);
    lemma_bits_value_concat(s, seq![b]);
    assert(bits_value(seq![b]) == (if b {
        1nat
    } else {
        0nat
    })) by {
        assert(seq![b].skip(1) =~= Seq::<bool>::empty());
        assert(seq![b][0] == b);
        assert(bits_value(Seq::<bool>::empty()) == 0);
    }
}

/// A growable bit string.
pub struct BitBuf {
    pub bits: Vec<bool>,
}

impl BitBuf {
    pub open spec fn view(self) -> Seq<bool> {
        self.bits@
    }

    pub fn new() -> (r: BitBuf)
        ensures
            r@ == Seq::<bool>::empty(),
    {
        BitBuf { bits: Vec::new() }
    }

    pub fn bit_len(&self) -> (r: usize)
        ensures
            r == self@.len(),
    {
        self.bits.len()
    }

    pub fn get_bit(&self, i: usize) -> (r: bool)
        requires
            i < self@.len(),
        ensures
            r == self@[i as int],
    {
        *self.bits.get(i).unwrap()
    }

    /// Appends the `w` low bits of `v`, least significant first.
    pub fn push_bits(&mut self, v: u64, w: u64)
        requires
            w <= 64,
            w < 64 ==> v < pow2(w as nat),
            old(self)@.len() + w <= usize::MAX,
        ensures
            final(self)@ == old(self)@ + value_bits(v as nat, w as nat),
    {
        let ghost orig = self@;
        let mut j: u64 = 0;
        proof {
            lemma_value_bits_len(v as nat, 0);
            assert(orig + value_bits(v as nat, 0) =~= orig);
        }
        while j < w
            invariant
                j <= w,
                w <= 64,
                self@ == orig + value_bits(v as nat, j as nat),
                orig.len() + w <= usize::MAX,
            decreases w - j,
        {
            let bit = ((v >> j) & 1) == 1;
            proof {
                lemma_value_bits_len(v as nat, j as nat);
                lemma_u64_shr_is_div(v, j);
                assert(((v >> j) & 1) == (v >> j) % 2) by (bit_vector);
                lemma_value_bits_step(v as nat, j as nat);
            }
            self.bits.push(bit);
            proof {
                assert(self@ =~= orig + value_bits(v as nat, (j + 1) as nat));
            }
            j = j + 1;
        }
    }

    /// Reads the `w` bits starting at `off` as a value.
    pub fn get_bits(&self, off: usize, w: u64) -> (r: u64)
        requires
            w <= 64,
            off + w <= self@.len(),
        ensures
            r as nat == bits_value(self@.subrange(off as int, off + w)),
            w < 64 ==> r < pow2(w as nat),
    {
        let total = self.bits.len();
        let mut r: u64 = 0;
        let mut j: u64 = 0;
        proof {
            assert(self@.subrange(off as int, off as int) =~= Seq::<bool>::empty());
            lemma2_to64();
        }
        while j < w
            invariant
                j <= w,
                w <= 64,
                off + w <= total,
                total == self@.len(),
                r as nat == bits_value(self@.subrange(off as int, off + j)),
                (r as nat) < pow2(j as nat),
            decreases w - j,
        {
            proof {
                lemma_u64_pow2_no_overflow(j as nat);
                if j < 63 {
                    lemma_u64_pow2_no_overflow((j + 1) as nat);
                    lemma_pow2_adds(j as nat, 1);
                    lemma2_to64();
                }
                lemma_u64_shl_is_mul(1u64, j);
            }
            let bit = self.get_bit(off + j as usize);
            if bit {
                proof {
                    let sub = self@.subrange(off as int, off + j);
                    lemma_bits_value_push(sub, true);
                    assert(sub.push(true) =~= self@.subrange(off as int, off + j + 1));
                    assert(r + (1u64 << j) == (r | (1u64 << j))) by (bit_vector)
                        requires
                            r < (1u64 << j),
                            j < 64u64,
                    ;
                }
                r = r | (1u64 << j);
            } else {
                proof {
                    let sub = self@.subrange(off as int, off + j);
                    lemma_bits_value_push(sub, false);
                    assert(sub.push(false) =~= self@.subrange(off as int, off + j + 1));
                }
            }
            proof {
                if j < 63 {
                    lemma_pow2_adds(j as nat, 1);
                    lemma2_to64();
                } else {
                    lemma_bits_value_bound(self@.subrange(off as int, off + j + 1));
                }
            }
            j = j + 1;
        }
        r
    }
}

/// Bit `j` of `v` extends the `j`-bit prefix of `v`'s bit string.
proof fn lemma_value_bits_step(v: nat, j: nat)
    ensures
        value_bits(v, j + 1) == value_bits(v, j).push((v / pow2(j)) % 2 == 1),
    decreases j,
{
    lemma_pow2_pos(j);
    if j == 0 {
        assert(pow2(0) == 1) by {
            lemma2_to64();
        }
        lemma_value_bits_len(v / 2, 0);
        assert(value_bits(v, 1) =~= value_bits(v, 0).push(v % 2 == 1));
    } else {
        lemma_value_bits_step(v / 2, (j - 1) as nat);
        assert(pow2(j) == 2 * pow2((j - 1) as nat)) by {
            lemma_pow2_adds(1, (j - 1) as nat);
            lemma2_to64();
        }
        let h = pow2((j - 1) as nat) as int;
        assert((v as int / 2) / h == v as int / (2 * h)) by (nonlinear_arith)
            requires
                h > 0,
                v >= 0,
        ;
        assert(value_bits(v, j + 1) =~= value_bits(v, j).push((v / pow2(j)) % 2 == 1));
    }
}

/// The least number of bits that can hold `x`: the smallest `r` with
/// `x < 2^r`.
pub open spec fn spec_bit_width(x: nat) -> nat
    decreases x,
{
    if x == 0 {
        0
    } else {
        1 + spec_bit_width(x / 2)
    }
}

/// Computes [`spec_bit_width`].
pub fn bit_width(x: u64) -> (r: u64)
    ensures
        r == spec_bit_width(x as nat),
        r <= 64,
        (x as nat) < pow2(r as nat),
        r > 0 ==> pow2((r - 1) as nat) <= x as nat,
{
    let mut r: u64 = 0;
    let mut v: u64 = x;
    proof {
        lemma2_to64();
    }
    while v > 0
        invariant
            r <= 64,
            v as nat == (x as nat) / pow2(r as nat),
            v > 0 ==> r < 64,
            r > 0 ==> (x as nat) / pow2((r - 1) as nat) >= 1,
            spec_bit_width(x as nat) == r + spec_bit_width(v as nat),
        decreases v,
    {
        proof {
            lemma_pow2_pos(r as nat);
            lemma_pow2_adds(r as nat, 1);
            lemma2_to64();
            vstd::arithmetic::div_mod::lemma_div_denominator(x as int,
                pow2(r as nat) as int, 2);
            if r == 63 {
                vstd::arithmetic::power2::lemma2_to64_rest();
                assert((x as nat) / pow2(63) <= 1) by (nonlinear_arith)
                    requires
                        (x as nat) < 0x10000000000000000,
                        pow2(63) == 0x8000000000000000,
                ;
            }
        }
        v = v / 2;
        r = r + 1;
    }
    proof {
        lemma_pow2_pos(r as nat);
        assert((x as nat) < pow2(r as nat)) by (nonlinear_arith)
            requires
                (x as nat) / pow2(r as nat) == 0,
                pow2(r as nat) > 0,
        ;
        if r > 0 {
            lemma_pow2_adds((r - 1) as nat, 1);
            lemma2_to64();
            lemma_pow2_pos((r - 1) as nat);
            assert(pow2((r - 1) as nat) <= x as nat) by (nonlinear_arith)
                requires
                    (x as nat) / pow2((r - 1) as nat) >= 1,
                    pow2((r - 1) as nat) > 0,
            ;
        }
    }
    r
}

/// Appending to a bit string leaves existing ranges unchanged.
pub proof fn lemma_subrange_of_extended(s1: Seq<bool>, s2: Seq<bool>, a: int, b: int)
    requires
        0 <= a <= b <= s1.len(),
        s1.len() <= s2.len(),
        forall|i: int| 0 <= i < s1.len() ==> s1[i] == s2[i],
    ensures
        s2.subrange(a, b) == s1.subrange(a, b),
{
    assert(s2.subrange(a, b) =~= s1.subrange(a, b));
}

} // verus!
