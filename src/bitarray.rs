//! A fixed-capacity bit vector stored as a sequence of words.
//!
//! Bit index 0 is the low-order bit of the last block, index `K - 1` its high-order bit,
//! index `K` the low-order bit of the block before it, and so on: the logical bit vector
//! runs from the last block towards the first.
use vstd::prelude::*;
use vstd::arithmetic::div_mod::lemma_fundamental_div_mod_converse;
use crate::word::{
    fits, lemma_bitwise, lemma_fits, lemma_fits_bitwise, lemma_low_mask_bits, lemma_nonzero_bit,
    lemma_fits_zero, lemma_shl_pair, lemma_shr_pair, lemma_top_bit, lemma_single_bit, lemma_zero_bits, low_mask, low_mask_spec,
    shl_pair_spec, shr_pair_spec, wbit,
};

verus! {

/// Bitwise and of two bit sequences of equal length.
pub open spec fn seq_and(a: Seq<bool>, b: Seq<bool>) -> Seq<bool> {
    Seq::new(a.len(), |i: int| a[i] && b[i])
}

pub open spec fn seq_or(a: Seq<bool>, b: Seq<bool>) -> Seq<bool> {
    Seq::new(a.len(), |i: int| a[i] || b[i])
}

pub open spec fn seq_xor(a: Seq<bool>, b: Seq<bool>) -> Seq<bool> {
    Seq::new(a.len(), |i: int| a[i] != b[i])
}

pub open spec fn seq_not(a: Seq<bool>) -> Seq<bool> {
    Seq::new(a.len(), |i: int| !a[i])
}

/// Logical shift towards higher indices: bit `i` of the result is bit `i - n`, zeros in.
pub open spec fn shl_spec(v: Seq<bool>, n: int) -> Seq<bool> {
    Seq::new(v.len(), |i: int| i >= n && v[i - n])
}

/// Logical shift towards lower indices: bit `i` of the result is bit `i + n`, zeros in.
pub open spec fn shr_spec(v: Seq<bool>, n: int) -> Seq<bool> {
    Seq::new(v.len(), |i: int| i + n < v.len() && v[i + n])
}

/// Number of set bits.
pub open spec fn count_spec(v: Seq<bool>) -> nat
    decreases v.len(),
{
    if v.len() == 0 {
        0
    } else {
        count_spec(v.drop_last()) + if v.last() {
            1nat
        } else {
            0nat
        }
    }
}

/// The low `k` bits of word `x`, lowest first.
pub open spec fn word_bits(x: u64, k: nat) -> Seq<bool> {
    Seq::new(k, |j: int| wbit(x, j as u64))
}

/// Relies on `u64::count_ones`: the number of one bits of the word.
#[verifier::external_body]
fn word_popcount(x: u64) -> (r: u32)
    ensures
        r == count_spec(word_bits(x, 64)),
{
    x.count_ones()
}

/// The indices of the set bits, in ascending order.
pub open spec fn set_index_seq(v: Seq<bool>) -> Seq<int>
    decreases v.len(),
{
    if v.len() == 0 {
        Seq::empty()
    } else {
        set_index_seq(v.drop_last()) + if v.last() {
            seq![v.len() - 1]
        } else {
            Seq::empty()
        }
    }
}

/// Exchange of bit `i` and bit `i + shift` for every `i` selected by `mask`.
pub open spec fn delta_swap_spec(v: Seq<bool>, mask: Seq<bool>, shift: int) -> Seq<bool> {
    Seq::new(
        v.len(),
        |i: int|
            if mask[i] {
                v[i + shift]
            } else if i >= shift && mask[i - shift] {
                v[i - shift]
            } else {
                v[i]
            },
    )
}

/// A mask usable for a delta swap: every selected bit has its partner inside the vector,
/// and no partner is itself selected.
pub open spec fn delta_swap_mask_ok(mask: Seq<bool>, shift: int) -> bool {
    forall|i: int| 0 <= i < mask.len() && #[trigger] mask[i] ==> i + shift < mask.len() && !mask[i + shift]
}

#[derive(Debug)]
pub enum WordOp {
    And,
    Or,
    Xor,
    AndNot,
}

pub open spec fn word_op_spec(op: WordOp, a: u64, b: u64) -> u64 {
    match op {
        WordOp::And => a & b,
        WordOp::Or => a | b,
        WordOp::Xor => a ^ b,
        WordOp::AndNot => a & !b,
    }
}

pub open spec fn bit_op_spec(op: WordOp, a: bool, b: bool) -> bool {
    match op {
        WordOp::And => a && b,
        WordOp::Or => a || b,
        WordOp::Xor => a != b,
        WordOp::AndNot => a && !b,
    }
}

/// A bit vector of `blocks.len() * block_bits` bits, `block_bits` of them in each word.
#[derive(Debug, Hash)]
pub struct BitArray {
    blocks: Vec<u64>,
    block_bits: u32,
}

impl BitArray {
    pub closed spec fn nblocks(&self) -> nat {
        self.blocks@.len()
    }

    pub closed spec fn width(&self) -> nat {
        self.block_bits as nat
    }

    /// The number of bits held.
    pub open spec fn len(&self) -> nat {
        self.nblocks() * self.width()
    }

    pub closed spec fn block_seq(&self) -> Seq<u64> {
        self.blocks@
    }

    /// The word holding logical bits `[w * K, (w + 1) * K)`.
    pub closed spec fn word(&self, w: int) -> u64 {
        self.blocks@[self.nblocks() - 1 - w]
    }

    pub open spec fn bit(&self, i: int) -> bool {
        wbit(self.word(i / (self.width() as int)), (i % (self.width() as int)) as u64)
    }

    pub open spec fn view(&self) -> Seq<bool> {
        Seq::new(self.len(), |i: int| self.bit(i))
    }

    pub open spec fn wf(&self) -> bool {
        &&& 1 <= self.width() <= 64
        &&& self.len() <= usize::MAX
        &&& forall|s: int|
            0 <= s < self.nblocks() ==> fits(#[trigger] self.block_seq()[s], self.width() as u64)
    }

    /// Same number of blocks and same block width.
    pub open spec fn same_shape(&self, other: &BitArray) -> bool {
        self.nblocks() == other.nblocks() && self.width() == other.width()
    }

    proof fn lemma_wf_blocks(&self)
        requires
            self.wf(),
        ensures
            forall|s: int|
                0 <= s < self.blocks@.len() ==> fits(#[trigger] self.blocks@[s], self.block_bits as u64),
    {
        assert forall|s: int| 0 <= s < self.blocks@.len() implies fits(#[trigger] self.blocks@[s], self.block_bits as u64) by {
            assert(self.block_seq()[s] == self.blocks@[s]);
        }
    }

    /// Logical word `w`, bit `j` is bit `w * K + j`.
    pub proof fn lemma_bit_at(&self, w: int, j: int)
        requires
            self.wf(),
            0 <= w < self.nblocks(),
            0 <= j < self.width(),
        ensures
            0 <= w * self.width() + j < self.len(),
            self.view()[w * self.width() + j] == wbit(self.word(w), j as u64),
    {
        let k = self.width() as int;
        let i = w * k + j;
        lemma_fundamental_div_mod_converse(i, k, w, j);
        assert(0 <= w * k + j < self.nblocks() * k) by (nonlinear_arith)
            requires
                0 <= w < self.nblocks(),
                0 <= j < k,
        ;
    }

    /// Every index is split into its word and the bit within it.
    pub proof fn lemma_index(&self, i: int)
        requires
            self.wf(),
            0 <= i < self.len(),
        ensures
            0 <= i / (self.width() as int) < self.nblocks(),
            0 <= i % (self.width() as int) < self.width(),
            i == (i / (self.width() as int)) * self.width() + i % (self.width() as int),
            self.view()[i] == wbit(self.word(i / (self.width() as int)), (i % (self.width() as int)) as u64),
    {
        let k = self.width() as int;
        assert(0 <= i / k < self.nblocks() && 0 <= i % k < k && i == (i / k) * k + i % k)
            by (nonlinear_arith)
            requires
                0 <= i < self.nblocks() * k,
                k >= 1,
        ;
    }

    /// All bits clear, `block_count` blocks of `block_bits` bits each.
    pub fn new(block_count: usize, block_bits: u32) -> (r: BitArray)
        requires
            1 <= block_bits <= 64,
            block_count * block_bits <= usize::MAX,
        ensures
            r.wf(),
            r.nblocks() == block_count,
            r.width() == block_bits,
            r@ == Seq::new(r.len(), |i: int| false),
    {
        let mut blocks: Vec<u64> = Vec::new();
        let mut s: usize = 0;
        while s < block_count
            invariant
                s <= block_count,
                blocks@.len() == s,
                forall|t: int| 0 <= t < s ==> blocks@[t] == 0u64,
            decreases block_count - s,
        {
            blocks.push(0u64);
            s = s + 1;
        }
        let r = BitArray { blocks, block_bits };
        proof {
            lemma_zero_bits();
            assert forall|t: int| 0 <= t < r.nblocks() implies fits(#[trigger] r.block_seq()[t], block_bits as u64) by {
                if block_bits < 64 {
                    let kk = block_bits as u64;
                    assert(0u64 < (1u64 << kk)) by (bit_vector)
                        requires
                            kk < 64,
                    ;
                }
            }
            assert forall|i: int| 0 <= i < r.len() implies r@[i] == false by {
                r.lemma_index(i);
            }
            assert(r@ =~= Seq::new(r.len(), |i: int| false));
        }
        r
    }

    /// A bit vector over the given blocks, the first of them holding the highest bits.
    pub fn from_blocks(blocks: Vec<u64>, block_bits: u32) -> (r: BitArray)
        requires
            1 <= block_bits <= 64,
            blocks@.len() * block_bits <= usize::MAX,
            forall|s: int| 0 <= s < blocks@.len() ==> fits(#[trigger] blocks@[s], block_bits as u64),
        ensures
            r.wf(),
            r.block_seq() == blocks@,
            r.width() == block_bits,
    {
        BitArray { blocks, block_bits }
    }

    /// The blocks, the first of them holding the highest bits.
    pub fn blocks(&self) -> (r: &[u64])
        ensures
            r@ == self.block_seq(),
    {
        self.blocks.as_slice()
    }

    pub fn block_count(&self) -> (r: usize)
        ensures
            r == self.nblocks(),
    {
        self.blocks.len()
    }

    pub fn block_bits(&self) -> (r: u32)
        ensures
            r == self.width(),
    {
        self.block_bits
    }

    /// The number of bits held.
    pub fn bits(&self) -> (r: usize)
        requires
            self.wf(),
        ensures
            r == self.len(),
    {
        self.blocks.len() * self.block_bits as usize
    }

    /// An exact copy.
    pub fn duplicate(&self) -> (r: BitArray)
        requires
            self.wf(),
        ensures
            r.wf(),
            r.same_shape(self),
            r.block_seq() == self.block_seq(),
            r@ == self@,
    {
        let r = self.clone();
        proof {
            assert(r.blocks@ == self.blocks@);
            assert(r@ =~= self@);
        }
        r
    }

    /// Storage position and bit within the block of bit `i`.
    fn addr(&self, i: usize) -> (r: (usize, u32))
        requires
            self.wf(),
            i < self.len(),
        ensures
            r.0 < self.nblocks(),
            r.1 < self.block_bits,
            r.0 == self.nblocks() - 1 - i as int / (self.width() as int),
            r.1 == i as int % (self.width() as int),
    {
        proof {
            self.lemma_index(i as int);
        }
        let k = self.block_bits as usize;
        (self.blocks.len() - i / k - 1, (i % k) as u32)
    }

    pub fn get(&self, i: usize) -> (r: bool)
        requires
            self.wf(),
            i < self.len(),
        ensures
            r == self@[i as int],
    {
        let (s, j) = self.addr(i);
        proof {
            self.lemma_index(i as int);
        }
        (self.blocks[s] >> j) & 1u64 == 1u64
    }

    fn put(&mut self, i: usize, value: bool)
        requires
            old(self).wf(),
            i < old(self).len(),
        ensures
            final(self).wf(),
            final(self).same_shape(old(self)),
            final(self)@ == old(self)@.update(i as int, value),
    {
        let (s, j) = self.addr(i);
        proof {
            self.lemma_wf_blocks();
        }
        let old_block = self.blocks[s];
        let new_block = if value {
            old_block | (1u64 << j)
        } else {
            old_block & !(1u64 << j)
        };
        proof {
            let jj = j as u64;
            lemma_single_bit(jj);
            lemma_bitwise(old_block, 1u64 << jj);
            lemma_bitwise(1u64 << jj, 0u64);
            lemma_bitwise(old_block, !(1u64 << jj));
            let k = self.block_bits as u64;
            if k < 64 {
                assert(old_block | (1u64 << jj) < (1u64 << k) && old_block & !(1u64 << jj) < (1u64 << k))
                    by (bit_vector)
                    requires
                        jj < k,
                        k < 64,
                        old_block < (1u64 << k),
                ;
            }
            assert(wbit(!(1u64 << jj), jj) == false);
        }
        self.blocks.set(s, new_block);
        proof {
            let o = *old(self);
            assert forall|t: int| 0 <= t < self.nblocks() implies fits(#[trigger] self.block_seq()[t], self.block_bits as u64) by {
                if t != s {
                    assert(self.blocks@[t] == o.blocks@[t]);
                }
            }
            assert forall|p: int| 0 <= p < self.len() implies self@[p] == o@.update(i as int, value)[p] by {
                self.lemma_index(p);
                o.lemma_index(p);
                o.lemma_index(i as int);
                let w = p / (self.width() as int);
                let b = p % (self.width() as int);
                if p != i {
                    if self.nblocks() - 1 - w == s {
                        assert(w == i as int / (self.width() as int));
                        assert(b != j);
                        assert(wbit(!(1u64 << (j as u64)), b as u64));
                    }
                }
            }
            assert(self@ =~= o@.update(i as int, value));
        }
    }

    /// Sets bit `i`.
    pub fn set(&mut self, i: usize)
        requires
            old(self).wf(),
            i < old(self).len(),
        ensures
            final(self).wf(),
            final(self).same_shape(old(self)),
            final(self)@ == old(self)@.update(i as int, true),
    {
        self.put(i, true)
    }

    /// Clears bit `i`.
    pub fn clear(&mut self, i: usize)
        requires
            old(self).wf(),
            i < old(self).len(),
        ensures
            final(self).wf(),
            final(self).same_shape(old(self)),
            final(self)@ == old(self)@.update(i as int, false),
    {
        self.put(i, false)
    }

    /// Combines the two vectors word by word.
    fn combine(&self, other: &BitArray, op: WordOp) -> (r: BitArray)
        requires
            self.wf(),
            other.wf(),
            self.same_shape(other),
        ensures
            r.wf(),
            r.same_shape(self),
            r@ == Seq::new(self.len(), |i: int| bit_op_spec(op, self@[i], other@[i])),
    {
        proof {
            self.lemma_wf_blocks();
            other.lemma_wf_blocks();
        }
        let mut out: Vec<u64> = Vec::new();
        let n = self.blocks.len();
        let mut s: usize = 0;
        while s < n
            invariant
                n == self.blocks@.len(),
                self.same_shape(other),
                self.wf(),
                other.wf(),
                forall|t: int|
                    0 <= t < self.blocks@.len() ==> fits(#[trigger] self.blocks@[t], self.block_bits as u64),
                forall|t: int|
                    0 <= t < other.blocks@.len() ==> fits(#[trigger] other.blocks@[t], other.block_bits as u64),
                s <= n,
                out@.len() == s,
                forall|t: int| 0 <= t < s ==> #[trigger] out@[t] == word_op_spec(op, self.blocks@[t], other.blocks@[t]),
                forall|t: int| 0 <= t < s ==> fits(#[trigger] out@[t], self.block_bits as u64),
            decreases n - s,
        {
            let a = self.blocks[s];
            let b = other.blocks[s];
            let w = match op {
                WordOp::And => a & b,
                WordOp::Or => a | b,
                WordOp::Xor => a ^ b,
                WordOp::AndNot => a & !b,
            };
            proof {
                lemma_fits_bitwise(a, b, self.block_bits as u64);
            }
            out.push(w);
            s = s + 1;
        }
        let r = BitArray { blocks: out, block_bits: self.block_bits };
        proof {
            assert forall|i: int| 0 <= i < r.len() implies r@[i] == bit_op_spec(op, self@[i], other@[i]) by {
                r.lemma_index(i);
                self.lemma_index(i);
                other.lemma_index(i);
                let w = i / (r.width() as int);
                let st = r.nblocks() - 1 - w;
                lemma_bitwise(self.blocks@[st], other.blocks@[st]);
                lemma_bitwise(self.blocks@[st], !other.blocks@[st]);
                lemma_bitwise(other.blocks@[st], 0u64);
            }
            assert(r@ =~= Seq::new(self.len(), |i: int| bit_op_spec(op, self@[i], other@[i])));
        }
        r
    }

    pub fn and(&self, other: &BitArray) -> (r: BitArray)
        requires
            self.wf(),
            other.wf(),
            self.same_shape(other),
        ensures
            r.wf(),
            r.same_shape(self),
            r@ == seq_and(self@, other@),
    {
        let r = self.combine(other, WordOp::And);
        proof {
            assert(r@ =~= seq_and(self@, other@));
        }
        r
    }

    pub fn or(&self, other: &BitArray) -> (r: BitArray)
        requires
            self.wf(),
            other.wf(),
            self.same_shape(other),
        ensures
            r.wf(),
            r.same_shape(self),
            r@ == seq_or(self@, other@),
    {
        let r = self.combine(other, WordOp::Or);
        proof {
            assert(r@ =~= seq_or(self@, other@));
        }
        r
    }

    pub fn xor(&self, other: &BitArray) -> (r: BitArray)
        requires
            self.wf(),
            other.wf(),
            self.same_shape(other),
        ensures
            r.wf(),
            r.same_shape(self),
            r@ == seq_xor(self@, other@),
    {
        let r = self.combine(other, WordOp::Xor);
        proof {
            assert(r@ =~= seq_xor(self@, other@));
        }
        r
    }

    /// The bits of `self` that are clear in `other`.
    pub fn and_not(&self, other: &BitArray) -> (r: BitArray)
        requires
            self.wf(),
            other.wf(),
            self.same_shape(other),
        ensures
            r.wf(),
            r.same_shape(self),
            r@ == seq_and(self@, seq_not(other@)),
    {
        let r = self.combine(other, WordOp::AndNot);
        proof {
            assert(r@ =~= seq_and(self@, seq_not(other@)));
        }
        r
    }

    /// The complement of every bit.
    pub fn not(&self) -> (r: BitArray)
        requires
            self.wf(),
        ensures
            r.wf(),
            r.same_shape(self),
            r@ == seq_not(self@),
    {
        let m = low_mask(self.block_bits);
        proof {
            self.lemma_wf_blocks();
        }
        let mut out: Vec<u64> = Vec::new();
        let n = self.blocks.len();
        let mut s: usize = 0;
        while s < n
            invariant
                n == self.blocks@.len(),
                self.wf(),
                forall|t: int|
                    0 <= t < self.blocks@.len() ==> fits(#[trigger] self.blocks@[t], self.block_bits as u64),
                m == low_mask_spec(self.block_bits as u64),
                s <= n,
                out@.len() == s,
                forall|t: int| 0 <= t < s ==> #[trigger] out@[t] == !self.blocks@[t] & m,
                forall|t: int| 0 <= t < s ==> fits(#[trigger] out@[t], self.block_bits as u64),
            decreases n - s,
        {
            let a = self.blocks[s];
            proof {
                lemma_fits_bitwise(a, a, self.block_bits as u64);
            }
            out.push(!a & m);
            s = s + 1;
        }
        let r = BitArray { blocks: out, block_bits: self.block_bits };
        proof {
            lemma_low_mask_bits(self.block_bits as u64);
            assert forall|i: int| 0 <= i < r.len() implies r@[i] == !self@[i] by {
                r.lemma_index(i);
                self.lemma_index(i);
                let w = i / (r.width() as int);
                let st = r.nblocks() - 1 - w;
                lemma_bitwise(!self.blocks@[st], m);
                lemma_bitwise(self.blocks@[st], 0u64);
            }
            assert(r@ =~= seq_not(self@));
        }
        r
    }

    /// Whether no bit is set.
    pub fn is_empty(&self) -> (r: bool)
        requires
            self.wf(),
        ensures
            r <==> (forall|i: int| 0 <= i < self.len() ==> !self@[i]),
    {
        proof {
            self.lemma_wf_blocks();
        }
        let n = self.blocks.len();
        let mut s: usize = 0;
        while s < n
            invariant
                n == self.blocks@.len(),
                self.wf(),
                forall|t: int|
                    0 <= t < self.blocks@.len() ==> fits(#[trigger] self.blocks@[t], self.block_bits as u64),
                s <= n,
                forall|t: int| 0 <= t < s ==> self.blocks@[t] == 0u64,
            decreases n - s,
        {
            if self.blocks[s] != 0 {
                proof {
                    let b = self.blocks@[s as int];
                    lemma_nonzero_bit(b);
                    let j = choose|j: u64| j < 64 && #[trigger] wbit(b, j);
                    lemma_fits(b, self.block_bits as u64);
                    let w = n - 1 - s;
                    self.lemma_bit_at(w, j as int);
                }
                return false;
            }
            s = s + 1;
        }
        proof {
            lemma_zero_bits();
            assert forall|i: int| 0 <= i < self.len() implies !self@[i] by {
                self.lemma_index(i);
            }
        }
        true
    }

    /// Block at storage position `t`, or zero past the end.
    closed spec fn block_or_zero(&self, t: int) -> u64 {
        if 0 <= t < self.nblocks() {
            self.blocks@[t]
        } else {
            0u64
        }
    }

    /// Logical shift towards higher bit indices by `n`: bit `i` moves to `i + n`, zeros
    /// come in at the bottom and bits pushed past the top are lost.
    pub fn shift_left(&self, n: usize) -> (r: BitArray)
        requires
            self.wf(),
            n <= self.len(),
        ensures
            r.wf(),
            r.same_shape(self),
            r@ == shl_spec(self@, n as int),
    {
        proof {
            self.lemma_wf_blocks();
            lemma_fits_zero(self.block_bits as u64);
        }
        let k = self.block_bits as usize;
        let nb = self.blocks.len();
        let q = n / k;
        let rr = n % k;
        let m = low_mask(self.block_bits);
        let mut out: Vec<u64> = Vec::new();
        let mut s: usize = 0;
        while s < nb
            invariant
                nb == self.blocks@.len(),
                k == self.block_bits,
                1 <= k <= 64,
                rr < k,
                m == low_mask_spec(k as u64),
                forall|t: int|
                    0 <= t < self.blocks@.len() ==> fits(#[trigger] self.blocks@[t], self.block_bits as u64),
                fits(0u64, k as u64),
                s <= nb,
                out@.len() == s,
                forall|t: int|
                    0 <= t < s ==> #[trigger] out@[t] == shl_pair_spec(
                        self.block_or_zero(t + q),
                        self.block_or_zero(t + q + 1),
                        rr as u64,
                        k as u64,
                    ),
                forall|t: int| 0 <= t < s ==> fits(#[trigger] out@[t], k as u64),
            decreases nb - s,
        {
            let hi: u64 = if q < nb - s {
                self.blocks[s + q]
            } else {
                0
            };
            let lo: u64 = if q < nb - s && nb - s - q >= 2 {
                self.blocks[s + q + 1]
            } else {
                0
            };
            let w: u64 = if rr == 0 {
                hi
            } else {
                ((hi << rr) & m) | (lo >> (k - rr))
            };
            proof {
                lemma_shl_pair(hi, lo, rr as u64, k as u64);
            }
            out.push(w);
            s = s + 1;
        }
        let r = BitArray { blocks: out, block_bits: self.block_bits };
        proof {
            assert forall|t: int| 0 <= t < r.nblocks() implies fits(#[trigger] r.block_seq()[t], r.block_bits as u64) by {
                assert(r.block_seq()[t] == out@[t]);
            }
            lemma_zero_bits();
            let kk = k as int;
            vstd::arithmetic::div_mod::lemma_fundamental_div_mod(n as int, kk);
            assert(n as int == (q as int) * kk + rr as int) by (nonlinear_arith)
                requires
                    n as int == kk * (n as int / kk) + (n as int % kk),
                    q as int == n as int / kk,
                    rr as int == n as int % kk,
            ;
            assert forall|i: int| 0 <= i < r.len() implies r@[i] == shl_spec(self@, n as int)[i] by {
                r.lemma_index(i);
                let w = i / kk;
                let j = i % kk;
                let st = nb - 1 - w;
                let hi = self.block_or_zero(st + q);
                let lo = self.block_or_zero(st + q + 1);
                lemma_shl_pair(hi, lo, rr as u64, k as u64);
                assert(r@[i] == wbit(out@[st], j as u64));
                if j >= rr {
                    if w >= q {
                        self.lemma_bit_at(w - q, j - rr);
                        assert((w - q) * kk + (j - rr) == i - n) by (nonlinear_arith)
                            requires
                                i == w * kk + j,
                                n as int == (q as int) * kk + rr as int,
                        ;
                    } else {
                        assert(w * kk + kk <= (q as int) * kk) by (nonlinear_arith)
                            requires
                                w + 1 <= q,
                                kk >= 1,
                        ;
                        assert(i < n);
                    }
                } else {
                    if w >= q + 1 {
                        self.lemma_bit_at(w - q - 1, j + kk - rr);
                        assert((w - q - 1) * kk + (j + kk - rr) == i - n) by (nonlinear_arith)
                            requires
                                i == w * kk + j,
                                n as int == (q as int) * kk + rr as int,
                        ;
                    } else {
                        assert(w * kk <= (q as int) * kk) by (nonlinear_arith)
                            requires
                                w <= q,
                                kk >= 1,
                        ;
                        assert(i < n);
                    }
                }
            }
            assert(r@ =~= shl_spec(self@, n as int));
        }
        r
    }

    /// Logical shift towards lower bit indices by `n`: bit `i` moves to `i - n`, zeros
    /// come in at the top and bits pushed below zero are lost.
    pub fn shift_right(&self, n: usize) -> (r: BitArray)
        requires
            self.wf(),
            n <= self.len(),
        ensures
            r.wf(),
            r.same_shape(self),
            r@ == shr_spec(self@, n as int),
    {
        proof {
            self.lemma_wf_blocks();
            lemma_fits_zero(self.block_bits as u64);
        }
        let k = self.block_bits as usize;
        let nb = self.blocks.len();
        let q = n / k;
        let rr = n % k;
        let m = low_mask(self.block_bits);
        let mut out: Vec<u64> = Vec::new();
        let mut s: usize = 0;
        while s < nb
            invariant
                nb == self.blocks@.len(),
                k == self.block_bits,
                1 <= k <= 64,
                rr < k,
                m == low_mask_spec(k as u64),
                forall|t: int|
                    0 <= t < self.blocks@.len() ==> fits(#[trigger] self.blocks@[t], self.block_bits as u64),
                fits(0u64, k as u64),
                s <= nb,
                out@.len() == s,
                forall|t: int|
                    0 <= t < s ==> #[trigger] out@[t] == shr_pair_spec(
                        self.block_or_zero(t - q),
                        self.block_or_zero(t - q - 1),
                        rr as u64,
                        k as u64,
                    ),
                forall|t: int| 0 <= t < s ==> fits(#[trigger] out@[t], k as u64),
            decreases nb - s,
        {
            let hi: u64 = if s >= q {
                self.blocks[s - q]
            } else {
                0
            };
            let lo: u64 = if s > q {
                self.blocks[s - q - 1]
            } else {
                0
            };
            let w: u64 = if rr == 0 {
                hi
            } else {
                (hi >> rr) | ((lo << (k - rr)) & m)
            };
            proof {
                lemma_shr_pair(hi, lo, rr as u64, k as u64);
            }
            out.push(w);
            s = s + 1;
        }
        let r = BitArray { blocks: out, block_bits: self.block_bits };
        proof {
            assert forall|t: int| 0 <= t < r.nblocks() implies fits(#[trigger] r.block_seq()[t], r.block_bits as u64) by {
                assert(r.block_seq()[t] == out@[t]);
            }
            lemma_zero_bits();
            let kk = k as int;
            let nbi = nb as int;
            vstd::arithmetic::div_mod::lemma_fundamental_div_mod(n as int, kk);
            assert(n as int == (q as int) * kk + rr as int) by (nonlinear_arith)
                requires
                    n as int == kk * (n as int / kk) + (n as int % kk),
                    q as int == n as int / kk,
                    rr as int == n as int % kk,
            ;
            assert(r.len() == nbi * kk);
            assert forall|i: int| 0 <= i < r.len() implies r@[i] == shr_spec(self@, n as int)[i] by {
                r.lemma_index(i);
                let w = i / kk;
                let j = i % kk;
                let st = nb - 1 - w;
                let hi = self.block_or_zero(st - q);
                let lo = self.block_or_zero(st - q - 1);
                lemma_shr_pair(hi, lo, rr as u64, k as u64);
                assert(r@[i] == wbit(out@[st], j as u64));
                if j + rr < kk {
                    if w + q < nbi {
                        self.lemma_bit_at(w + q, j + rr);
                        assert((w + q) * kk + (j + rr) == i + n) by (nonlinear_arith)
                            requires
                                i == w * kk + j,
                                n as int == (q as int) * kk + rr as int,
                        ;
                    } else {
                        assert(i + n >= nbi * kk) by (nonlinear_arith)
                            requires
                                i == w * kk + j,
                                n as int == (q as int) * kk + rr as int,
                                w + q >= nbi,
                                j >= 0,
                                rr >= 0,
                                kk >= 1,
                        ;
                    }
                } else {
                    if w + q + 1 < nbi {
                        self.lemma_bit_at(w + q + 1, j + rr - kk);
                        assert((w + q + 1) * kk + (j + rr - kk) == i + n) by (nonlinear_arith)
                            requires
                                i == w * kk + j,
                                n as int == (q as int) * kk + rr as int,
                        ;
                    } else {
                        assert(i + n >= nbi * kk) by (nonlinear_arith)
                            requires
                                i == w * kk + j,
                                n as int == (q as int) * kk + rr as int,
                                w + q + 1 >= nbi,
                                j + rr >= kk,
                                kk >= 1,
                        ;
                    }
                }
            }
            assert(r@ =~= shr_spec(self@, n as int));
        }
        r
    }

    /// Sets every bit of `[lo, hi)`.
    pub fn set_range(&mut self, lo: usize, hi: usize)
        requires
            old(self).wf(),
            lo <= hi <= old(self).len(),
        ensures
            final(self).wf(),
            final(self).same_shape(old(self)),
            final(self)@ == Seq::new(old(self).len(), |i: int| old(self)@[i] || (lo <= i < hi)),
    {
        self.fill_range(lo, hi, true)
    }

    /// Clears every bit of `[lo, hi)`.
    pub fn clear_range(&mut self, lo: usize, hi: usize)
        requires
            old(self).wf(),
            lo <= hi <= old(self).len(),
        ensures
            final(self).wf(),
            final(self).same_shape(old(self)),
            final(self)@ == Seq::new(old(self).len(), |i: int| old(self)@[i] && !(lo <= i < hi)),
    {
        self.fill_range(lo, hi, false)
    }

    fn fill_range(&mut self, lo: usize, hi: usize, value: bool)
        requires
            old(self).wf(),
            lo <= hi <= old(self).len(),
        ensures
            final(self).wf(),
            final(self).same_shape(old(self)),
            final(self)@ == Seq::new(
                old(self).len(),
                |i: int| if lo <= i < hi { value } else { old(self)@[i] },
            ),
    {
        let ghost start = *self;
        let mut i = lo;
        while i < hi
            invariant
                lo <= i <= hi,
                hi <= start.len(),
                self.wf(),
                self.same_shape(&start),
                self.len() == start.len(),
                self@ == Seq::new(
                    start.len(),
                    |p: int| if lo <= p < i { value } else { start@[p] },
                ),
            decreases hi - i,
        {
            self.put(i, value);
            i = i + 1;
            proof {
                assert(self@ =~= Seq::new(
                    start.len(),
                    |p: int| if lo <= p < i { value } else { start@[p] },
                ));
            }
        }
    }

    /// Sets bits `lo`, `lo + step`, `lo + 2 * step`, ... while they stay below `hi`.
    pub fn set_range_step(&mut self, lo: usize, hi: usize, step: usize)
        requires
            old(self).wf(),
            lo <= hi <= old(self).len(),
            step > 0,
        ensures
            final(self).wf(),
            final(self).same_shape(old(self)),
            final(self)@ == Seq::new(
                old(self).len(),
                |i: int| old(self)@[i] || (lo <= i < hi && (i - lo) % (step as int) == 0),
            ),
    {
        self.fill_range_step(lo, hi, step, true);
        proof {
            assert(self@ =~= Seq::new(
                old(self).len(),
                |i: int| old(self)@[i] || (lo <= i < hi && (i - lo) % (step as int) == 0),
            ));
        }
    }

    /// Clears bits `lo`, `lo + step`, `lo + 2 * step`, ... while they stay below `hi`.
    pub fn clear_range_step(&mut self, lo: usize, hi: usize, step: usize)
        requires
            old(self).wf(),
            lo <= hi <= old(self).len(),
            step > 0,
        ensures
            final(self).wf(),
            final(self).same_shape(old(self)),
            final(self)@ == Seq::new(
                old(self).len(),
                |i: int| old(self)@[i] && !(lo <= i < hi && (i - lo) % (step as int) == 0),
            ),
    {
        self.fill_range_step(lo, hi, step, false);
        proof {
            assert(self@ =~= Seq::new(
                old(self).len(),
                |i: int| old(self)@[i] && !(lo <= i < hi && (i - lo) % (step as int) == 0),
            ));
        }
    }

    fn fill_range_step(&mut self, lo: usize, hi: usize, step: usize, value: bool)
        requires
            old(self).wf(),
            lo <= hi <= old(self).len(),
            step > 0,
        ensures
            final(self).wf(),
            final(self).same_shape(old(self)),
            final(self)@ == Seq::new(
                old(self).len(),
                |i: int| if lo <= i < hi && (i - lo) % (step as int) == 0 { value } else { old(self)@[i] },
            ),
    {
        let ghost start = *self;
        let mut i = lo;
        proof {
            assert(0int % (step as int) == 0);
        }
        while i < hi
            invariant
                lo <= i <= hi,
                hi <= start.len() <= usize::MAX,
                i < hi ==> (i - lo) % (step as int) == 0,
                step > 0,
                self.wf(),
                self.same_shape(&start),
                self.len() == start.len(),
                self@ == Seq::new(
                    start.len(),
                    |p: int| if lo <= p < i && (p - lo) % (step as int) == 0 { value } else { start@[p] },
                ),
            decreases hi - i,
        {
            self.put(i, value);
            let ghost prev = i;
            if hi - i <= step {
                i = hi;
            } else {
                i = i + step;
            }
            proof {
                assert forall|p: int| prev < p < i implies #[trigger] ((p - lo) % (step as int)) != 0 by {
                    assert((p - lo) % (step as int) != 0) by (nonlinear_arith)
                        requires
                            (prev - lo) % (step as int) == 0,
                            prev < p < prev + step,
                            step > 0,
                            prev >= lo,
                    ;
                }
                if i < hi {
                    assert((i - lo) % (step as int) == 0) by (nonlinear_arith)
                        requires
                            (prev - lo) % (step as int) == 0,
                            i == prev + step,
                            step > 0,
                            prev >= lo,
                    ;
                }
                assert(self@ =~= Seq::new(
                    start.len(),
                    |p: int| if lo <= p < i && (p - lo) % (step as int) == 0 { value } else { start@[p] },
                ));
            }
        }
        proof {
            assert(self@ =~= Seq::new(
                start.len(),
                |p: int| if lo <= p < hi && (p - lo) % (step as int) == 0 { value } else { start@[p] },
            ));
        }
    }

    /// Swaps bit `i` with bit `i + shift` for every `i` set in `mask`, with the
    /// three-xor bit-permute step.
    pub fn detla_swap(&mut self, mask: &BitArray, shift: usize)
        requires
            old(self).wf(),
            mask.wf(),
            old(self).same_shape(mask),
            0 < shift <= old(self).len(),
            delta_swap_mask_ok(mask@, shift as int),
        ensures
            final(self).wf(),
            final(self).same_shape(old(self)),
            final(self)@ == delta_swap_spec(old(self)@, mask@, shift as int),
    {
        let ghost a = self@;
        let shifted = self.shift_right(shift);
        let diff = shifted.xor(self);
        let t = diff.and(mask);
        let once = self.xor(&t);
        let t_up = t.shift_left(shift);
        let result = once.xor(&t_up);
        proof {
            assert forall|i: int| 0 <= i < a.len() implies result@[i] == delta_swap_spec(a, mask@, shift as int)[i] by {
                if i >= shift && mask@[i - shift] {
                    assert(!mask@[i]);
                }
            }
            assert(result@ =~= delta_swap_spec(a, mask@, shift as int));
        }
        *self = result;
    }

    /// The `K` bits starting at bit `start` as a word, bits past the end read as zero.
    pub fn get_block(&self, start: usize) -> (r: u64)
        requires
            self.wf(),
            start < self.len(),
        ensures
            fits(r, self.width() as u64),
            forall|j: u64|
                j < self.width() ==> #[trigger] wbit(r, j) == (start + j < self.len() && self@[start + j]),
    {
        proof {
            self.lemma_wf_blocks();
            lemma_fits_zero(self.block_bits as u64);
            lemma_zero_bits();
        }
        let k = self.block_bits as usize;
        let (s, b) = self.addr(start);
        let lo = self.blocks[s];
        let hi: u64 = if s > 0 {
            self.blocks[s - 1]
        } else {
            0
        };
        let m = low_mask(self.block_bits);
        let r = if b == 0 {
            lo
        } else {
            (lo >> b) | ((hi << (k - b as usize)) & m)
        };
        proof {
            let kk = k as int;
            lemma_shr_pair(lo, hi, b as u64, k as u64);
            self.lemma_index(start as int);
            let w = start as int / kk;
            assert forall|j: u64| j < self.width() implies #[trigger] wbit(r, j) == (start + j < self.len() && self@[start + j]) by {
                if j + b < kk {
                    self.lemma_bit_at(w, j + b);
                } else if w + 1 < self.nblocks() {
                    self.lemma_bit_at(w + 1, j + b - kk);
                    assert((w + 1) * kk + (j + b - kk) == w * kk + b + j) by (nonlinear_arith);
                } else {
                    assert(start + j >= self.len()) by (nonlinear_arith)
                        requires
                            start == w * kk + b,
                            j + b >= kk,
                            w + 1 >= self.nblocks(),
                            self.len() == self.nblocks() * kk,
                    ;
                }
            }
        }
        r
    }

    /// The lowest index at or after `start` whose bit equals `value`, found word by word
    /// with the trailing-zero count of each (complemented, for clear bits) block.
    fn find_from(&self, start: usize, value: bool) -> (r: Option<usize>)
        requires
            self.wf(),
            start <= self.len(),
        ensures
            match r {
                Some(i) => start <= i < self.len() && self@[i as int] == value && forall|p: int|
                    start <= p < i ==> self@[p] != value,
                None => forall|p: int| start <= p < self.len() ==> self@[p] != value,
            },
    {
        proof {
            self.lemma_wf_blocks();
            lemma_low_mask_bits(self.block_bits as u64);
        }
        let k = self.block_bits as usize;
        let nb = self.blocks.len();
        let n = nb * k;
        if start >= n {
            return None;
        }
        let first_word = start / k;
        let first_bit = (start % k) as u32;
        proof {
            self.lemma_index(start as int);
            lemma_low_mask_bits(first_bit as u64);
        }
        let m = low_mask(self.block_bits);
        let below = low_mask(first_bit);
        let mut w = first_word;
        while w < nb
            invariant
                self.wf(),
                forall|t: int|
                    0 <= t < self.blocks@.len() ==> fits(#[trigger] self.blocks@[t], self.block_bits as u64),
                k == self.block_bits,
                nb == self.blocks@.len(),
                n == self.len(),
                n == nb * k,
                start < n,
                start == first_word * k + first_bit,
                first_bit < k,
                first_word < nb,
                first_word <= w <= nb,
                m == low_mask_spec(k as u64),
                below == low_mask_spec(first_bit as u64),
                forall|p: int| start <= p < w * k ==> self@[p] != value,
            decreases nb - w,
        {
            let raw = self.blocks[nb - 1 - w];
            let sel = if value {
                raw
            } else {
                !raw & m
            };
            let word = if w == first_word {
                sel & !below
            } else {
                sel
            };
            proof {
                lemma_bitwise(raw, m);
                lemma_bitwise(!raw, m);
                lemma_bitwise(sel, !below);
                lemma_bitwise(below, below);
                lemma_low_mask_bits(k as u64);
                lemma_low_mask_bits(first_bit as u64);
                lemma_fits(raw, k as u64);
                assert(w * k + k <= nb * k) by (nonlinear_arith)
                    requires
                        w < nb,
                ;
                assert forall|j: u64| j < 64 implies #[trigger] wbit(word, j) == (j < k && (w > first_word
                    || j >= first_bit) && (wbit(raw, j) == value)) by {}
            }
            if word != 0 {
                let tz = word.trailing_zeros();
                proof {
                    vstd::std_specs::bits::axiom_u64_trailing_zeros(word);
                    let t = tz as u64;
                    assert(wbit(word, t));
                    assert(t < k);
                    self.lemma_bit_at(w as int, t as int);
                    assert forall|p: int| start <= p < w * k + t implies self@[p] != value by {
                        if p >= w * k {
                            let j = (p - w * k) as u64;
                            assert(!wbit(word, j));
                            self.lemma_bit_at(w as int, j as int);
                        }
                    }
                    if w > first_word {
                        assert(w * k >= first_word * k + k) by (nonlinear_arith)
                            requires
                                w >= first_word + 1,
                        ;
                    }
                }
                return Some(w * k + tz as usize);
            }
            proof {
                lemma_zero_bits();
                assert forall|p: int| start <= p < (w + 1) * k implies self@[p] != value by {
                    assert((w + 1) * k == w * k + k) by (nonlinear_arith);
                    if p >= w * k {
                        let j = (p - w * k) as u64;
                        assert(!wbit(word, j));
                        self.lemma_bit_at(w as int, j as int);
                        if w == first_word {
                            assert(j >= first_bit);
                        }
                    }
                }
            }
            w = w + 1;
        }
        None
    }

    /// The highest index below `end` whose bit equals `value`, found word by word with
    /// the leading-zero count of each (complemented, for clear bits) block.
    fn find_back(&self, end: usize, value: bool) -> (r: Option<usize>)
        requires
            self.wf(),
            end <= self.len(),
        ensures
            match r {
                Some(i) => i < end && self@[i as int] == value && forall|p: int|
                    i < p < end ==> self@[p] != value,
                None => forall|p: int| 0 <= p < end ==> self@[p] != value,
            },
    {
        if end == 0 {
            return None;
        }
        proof {
            self.lemma_wf_blocks();
            lemma_low_mask_bits(self.block_bits as u64);
        }
        let k = self.block_bits as usize;
        let nb = self.blocks.len();
        let last = end - 1;
        let last_word = last / k;
        let last_bit = (last % k) as u32;
        proof {
            self.lemma_index(last as int);
            lemma_low_mask_bits((last_bit + 1) as u64);
        }
        let m = low_mask(self.block_bits);
        let upto = low_mask(last_bit + 1);
        proof {
            assert((last_word + 1) * k == last_word * k + k) by (nonlinear_arith);
        }
        let mut c = last_word + 1;
        while c > 0
            invariant
                self.wf(),
                forall|t: int|
                    0 <= t < self.blocks@.len() ==> fits(#[trigger] self.blocks@[t], self.block_bits as u64),
                k == self.block_bits,
                nb == self.blocks@.len(),
                last < end <= self.len(),
                end == last + 1,
                self.len() == nb * k,
                last == last_word * k + last_bit,
                last_bit < k,
                last_word < nb,
                c <= last_word + 1,
                m == low_mask_spec(k as u64),
                upto == low_mask_spec((last_bit + 1) as u64),
                forall|p: int| c * k <= p < end ==> self@[p] != value,
            decreases c,
        {
            let w = c - 1;
            let raw = self.blocks[nb - 1 - w];
            let sel = if value {
                raw
            } else {
                !raw & m
            };
            let word = if w == last_word {
                sel & upto
            } else {
                sel
            };
            proof {
                lemma_bitwise(raw, m);
                lemma_bitwise(!raw, m);
                lemma_bitwise(sel, upto);
                lemma_low_mask_bits(k as u64);
                lemma_low_mask_bits((last_bit + 1) as u64);
                lemma_fits(raw, k as u64);
                assert forall|j: u64| j < 64 implies #[trigger] wbit(word, j) == (j < k && (w < last_word
                    || j <= last_bit) && (wbit(raw, j) == value)) by {}
            }
            if word != 0 {
                let lz = word.leading_zeros();
                proof {
                    lemma_top_bit(word);
                    let t = (63 - lz) as u64;
                    assert(wbit(word, t));
                    assert(t < k);
                    self.lemma_bit_at(w as int, t as int);
                    assert forall|p: int| w * k + t < p < end implies self@[p] != value by {
                        if p < (w + 1) * k {
                            assert((w + 1) * k == w * k + k) by (nonlinear_arith);
                            let j = (p - w * k) as u64;
                            assert(!wbit(word, j));
                            self.lemma_bit_at(w as int, j as int);
                        } else {
                            assert(c * k == (w + 1) * k);
                        }
                    }
                    if w < last_word {
                        assert(w * k + k <= last_word * k) by (nonlinear_arith)
                            requires
                                w + 1 <= last_word,
                        ;
                    }
                }
                return Some(w * k + (63 - lz) as usize);
            }
            proof {
                lemma_zero_bits();
                assert forall|p: int| w * k <= p < end implies self@[p] != value by {
                    assert((w + 1) * k == w * k + k) by (nonlinear_arith);
                    if p < (w + 1) * k {
                        let j = (p - w * k) as u64;
                        assert(!wbit(word, j));
                        self.lemma_bit_at(w as int, j as int);
                        if w == last_word {
                            assert(j <= last_bit);
                        }
                    } else {
                        assert(c * k == (w + 1) * k);
                    }
                }
            }
            c = w;
        }
        None
    }

    /// Index of the lowest set bit.
    pub fn first_set(&self) -> (r: Option<usize>)
        requires
            self.wf(),
        ensures
            match r {
                Some(i) => i < self.len() && self@[i as int] && forall|p: int| 0 <= p < i ==> !self@[p],
                None => forall|p: int| 0 <= p < self.len() ==> !self@[p],
            },
    {
        self.find_from(0, true)
    }

    /// Index of the highest set bit.
    pub fn last_set(&self) -> (r: Option<usize>)
        requires
            self.wf(),
        ensures
            match r {
                Some(i) => i < self.len() && self@[i as int] && forall|p: int|
                    i < p < self.len() ==> !self@[p],
                None => forall|p: int| 0 <= p < self.len() ==> !self@[p],
            },
    {
        let n = self.bits();
        self.find_back(n, true)
    }

    /// Index of the lowest clear bit.
    pub fn first_clear(&self) -> (r: Option<usize>)
        requires
            self.wf(),
        ensures
            match r {
                Some(i) => i < self.len() && !self@[i as int] && forall|p: int| 0 <= p < i ==> self@[p],
                None => forall|p: int| 0 <= p < self.len() ==> self@[p],
            },
    {
        self.find_from(0, false)
    }

    /// Index of the highest clear bit.
    pub fn last_clear(&self) -> (r: Option<usize>)
        requires
            self.wf(),
        ensures
            match r {
                Some(i) => i < self.len() && !self@[i as int] && forall|p: int|
                    i < p < self.len() ==> self@[p],
                None => forall|p: int| 0 <= p < self.len() ==> self@[p],
            },
    {
        let n = self.bits();
        self.find_back(n, false)
    }

    /// Number of set bits, summed from the population count of each block.
    pub fn count_set(&self) -> (r: usize)
        requires
            self.wf(),
        ensures
            r == count_spec(self@),
    {
        proof {
            self.lemma_wf_blocks();
        }
        let k = self.block_bits as usize;
        let nb = self.blocks.len();
        let mut total: usize = 0;
        let mut w: usize = 0;
        while w < nb
            invariant
                self.wf(),
                forall|t: int|
                    0 <= t < self.blocks@.len() ==> fits(#[trigger] self.blocks@[t], self.block_bits as u64),
                k == self.block_bits,
                nb == self.blocks@.len(),
                self.len() == nb * k,
                w <= nb,
                w * k <= self.len(),
                total == count_spec(self@.take(w * k)),
            decreases nb - w,
        {
            let x = self.blocks[nb - 1 - w];
            let c = word_popcount(x);
            proof {
                assert((w + 1) * k == w * k + k && w * k + k <= nb * k) by (nonlinear_arith)
                    requires
                        w < nb,
                ;
                self.lemma_word_count(w as int);
                lemma_count_bound(self@.take(w * k + k));
            }
            total = total + c as usize;
            w = w + 1;
        }
        proof {
            assert(self@.take(nb * k) =~= self@);
        }
        total
    }

    /// Counting one more word of the vector adds its population count.
    proof fn lemma_word_count(&self, w: int)
        requires
            self.wf(),
            0 <= w < self.nblocks(),
            w * self.width() + self.width() <= self.len(),
        ensures
            count_spec(self@.take(w * self.width() + self.width())) == count_spec(self@.take(
                w * self.width(),
            )) + count_spec(word_bits(self.word(w), 64)),
    {
        self.lemma_wf_blocks();
        let k = self.width() as int;
        let x = self.word(w);
        assert(x == self.blocks@[self.nblocks() - 1 - w]);
        assert forall|j: int| 0 <= j < k implies self@.take(w * k + k)[w * k + j] == #[trigger] word_bits(x, k as nat)[j] by {
            self.lemma_bit_at(w, j);
        }
        assert(self@.take(w * k + k) =~= self@.take(w * k) + word_bits(x, k as nat));
        lemma_count_concat(self@.take(w * k), word_bits(x, k as nat));
        lemma_fits(x, k as u64);
        let high = Seq::new((64 - k) as nat, |j: int| wbit(x, (k + j) as u64));
        assert(word_bits(x, 64) =~= word_bits(x, k as nat) + high);
        lemma_count_concat(word_bits(x, k as nat), high);
        assert(high =~= Seq::new((64 - k) as nat, |j: int| false));
        lemma_count_zeros((64 - k) as nat);
    }

    /// Number of clear bits.
    pub fn count_clear(&self) -> (r: usize)
        requires
            self.wf(),
        ensures
            r == count_spec(seq_not(self@)),
    {
        let set = self.count_set();
        proof {
            lemma_count_not(self@);
        }
        self.bits() - set
    }

    /// An iterator over the indices of the set bits, lowest first.
    pub fn iter_set(&self) -> (r: BitArrayIter)
        requires
            self.wf(),
        ensures
            r.wf(),
            r.target()@ == self@,
            r.position() == 0,
            r.value() == true,
            !r.reverse(),
    {
        BitArrayIter { target: self.duplicate(), bound: 0, value: true, reverse: false }
    }

    /// An iterator over the indices of the clear bits, lowest first.
    pub fn iter_clear(&self) -> (r: BitArrayIter)
        requires
            self.wf(),
        ensures
            r.wf(),
            r.target()@ == self@,
            r.position() == 0,
            r.value() == false,
            !r.reverse(),
    {
        BitArrayIter { target: self.duplicate(), bound: 0, value: false, reverse: false }
    }

    /// An iterator over the indices of the set bits, highest first.
    pub fn iter_set_rev(&self) -> (r: BitArrayIter)
        requires
            self.wf(),
        ensures
            r.wf(),
            r.target()@ == self@,
            r.position() == self.len(),
            r.value() == true,
            r.reverse(),
    {
        let n = self.bits();
        BitArrayIter { target: self.duplicate(), bound: n, value: true, reverse: true }
    }

    /// An iterator over the indices of the clear bits, highest first.
    pub fn iter_clear_rev(&self) -> (r: BitArrayIter)
        requires
            self.wf(),
        ensures
            r.wf(),
            r.target()@ == self@,
            r.position() == self.len(),
            r.value() == false,
            r.reverse(),
    {
        let n = self.bits();
        BitArrayIter { target: self.duplicate(), bound: n, value: false, reverse: true }
    }

    /// The indices of the set bits in ascending order.
    pub fn set_indices(&self) -> (r: Vec<usize>)
        requires
            self.wf(),
        ensures
            forall|a: int, b: int| 0 <= a < b < r@.len() ==> r@[a] < r@[b],
            forall|x: int| 0 <= x < self.len() ==> (self@[x] <==> r@.contains(x as usize)),
            forall|a: int| 0 <= a < r@.len() ==> r@[a] < self.len(),
            r@.len() == count_spec(self@),
            r@.map_values(|x: usize| x as int) == set_index_seq(self@),
    {
        let mut it = self.iter_set();
        let mut out: Vec<usize> = Vec::new();
        let ghost v = self@;
        loop
            invariant
                it.wf(),
                it.target()@ == v,
                v == self@,
                it.value() == true,
                !it.reverse(),
                it.position() <= v.len(),
                forall|a: int, b: int| 0 <= a < b < out@.len() ==> out@[a] < out@[b],
                forall|a: int| 0 <= a < out@.len() ==> out@[a] < it.position(),
                forall|x: int| 0 <= x < it.position() ==> (v[x] <==> out@.contains(x as usize)),
                out@.len() == count_spec(v.take(it.position() as int)),
                out@.map_values(|x: usize| x as int) == set_index_seq(v.take(it.position() as int)),
            ensures
                out@.map_values(|x: usize| x as int) == set_index_seq(v),
                forall|a: int, b: int| 0 <= a < b < out@.len() ==> out@[a] < out@[b],
                forall|a: int| 0 <= a < out@.len() ==> out@[a] < v.len(),
                forall|x: int| 0 <= x < v.len() ==> (v[x] <==> out@.contains(x as usize)),
                out@.len() == count_spec(v),
            decreases v.len() - it.position(),
        {
            let ghost before = it.position();
            let ghost prev = out@;
            match it.next() {
                Some(i) => {
                    proof {
                        lemma_count_skip(v, before as int, i as int);
                        lemma_count_step(v, i as int);
                        lemma_index_seq_skip(v, before as int, i as int);
                        lemma_index_seq_step(v, i as int);
                    }
                    out.push(i);
                    proof {
                        assert(out@.map_values(|x: usize| x as int) =~= prev.map_values(|x: usize| x as int).push(i as int));
                        assert(out@ == prev.push(i));
                        assert forall|x: int| 0 <= x < it.position() implies (v[x] <==> out@.contains(x as usize)) by {
                            vstd::seq_lib::lemma_seq_contains_after_push(prev, i, x as usize);
                            if before <= x < i {
                                if prev.contains(x as usize) {
                                    let a = choose|a: int| 0 <= a < prev.len() && prev[a] == x as usize;
                                }
                            }
                        }
                    }
                },
                None => {
                    proof {
                        lemma_count_skip(v, before as int, v.len() as int);
                        lemma_index_seq_skip(v, before as int, v.len() as int);
                        assert(v.take(v.len() as int) =~= v);
                        assert forall|x: int| 0 <= x < v.len() implies (v[x] <==> out@.contains(x as usize)) by {
                            if x >= before && out@.contains(x as usize) {
                                let a = choose|a: int| 0 <= a < out@.len() && out@[a] == x as usize;
                            }
                        }
                    }
                    break;
                },
            }
        }
        out
    }
}

/// Shifting left then right by the same amount keeps exactly the bits that stay inside,
/// which is the vector masked by the all-ones vector shifted right; and symmetrically.
pub proof fn lemma_shift_round_trip(v: Seq<bool>, s: int)
    requires
        0 <= s <= v.len(),
    ensures
        shr_spec(shl_spec(v, s), s) == seq_and(v, shr_spec(Seq::new(v.len(), |i: int| true), s)),
        shl_spec(shr_spec(v, s), s) == seq_and(v, shl_spec(Seq::new(v.len(), |i: int| true), s)),
{
    assert(shr_spec(shl_spec(v, s), s) =~= seq_and(v, shr_spec(Seq::new(v.len(), |i: int| true), s)));
    assert(shl_spec(shr_spec(v, s), s) =~= seq_and(v, shl_spec(Seq::new(v.len(), |i: int| true), s)));
}

pub proof fn lemma_count_concat(a: Seq<bool>, b: Seq<bool>)
    ensures
        count_spec(a + b) == count_spec(a) + count_spec(b),
    decreases b.len(),
{
    if b.len() == 0 {
        assert(a + b =~= a);
    } else {
        lemma_count_concat(a, b.drop_last());
        assert((a + b).drop_last() =~= a + b.drop_last());
    }
}

pub proof fn lemma_count_zeros(n: nat)
    ensures
        count_spec(Seq::new(n, |i: int| false)) == 0,
    decreases n,
{
    if n > 0 {
        lemma_count_zeros((n - 1) as nat);
        assert(Seq::new(n, |i: int| false).drop_last() =~= Seq::new((n - 1) as nat, |i: int| false));
    }
}

/// A shift keeps the number of set bits among the bits that are not pushed out: the low
/// `len - s` bits for a left shift, the high `len - s` bits for a right shift.
pub proof fn lemma_shift_count(v: Seq<bool>, s: int)
    requires
        0 <= s <= v.len(),
    ensures
        count_spec(shl_spec(v, s)) == count_spec(v.take(v.len() - s)),
        count_spec(shr_spec(v, s)) == count_spec(v.skip(s)),
{
    let z = Seq::new(s as nat, |i: int| false);
    lemma_count_zeros(s as nat);
    assert(shl_spec(v, s) =~= z + v.take(v.len() - s));
    lemma_count_concat(z, v.take(v.len() - s));
    assert(shr_spec(v, s) =~= v.skip(s) + z);
    lemma_count_concat(v.skip(s), z);
}

/// Applying the same delta swap twice gives back the starting bits.
pub proof fn lemma_delta_swap_involution(v: Seq<bool>, mask: Seq<bool>, shift: int)
    requires
        mask.len() == v.len(),
        shift > 0,
        delta_swap_mask_ok(mask, shift),
    ensures
        delta_swap_spec(delta_swap_spec(v, mask, shift), mask, shift) == v,
{
    let once = delta_swap_spec(v, mask, shift);
    assert forall|i: int| 0 <= i < v.len() implies delta_swap_spec(once, mask, shift)[i] == v[i] by {
        if mask[i] {
            assert(!mask[i + shift]);
        } else if i >= shift && mask[i - shift] {
            assert(mask[i - shift]);
        }
    }
    assert(delta_swap_spec(once, mask, shift) =~= v);
}

/// Counting one more element adds its bit.
pub proof fn lemma_count_step(v: Seq<bool>, i: int)
    requires
        0 <= i < v.len(),
    ensures
        count_spec(v.take(i + 1)) == count_spec(v.take(i)) + if v[i] {
            1nat
        } else {
            0nat
        },
{
    assert(v.take(i + 1).drop_last() =~= v.take(i));
}

pub proof fn lemma_index_seq_step(v: Seq<bool>, i: int)
    requires
        0 <= i < v.len(),
    ensures
        set_index_seq(v.take(i + 1)) == set_index_seq(v.take(i)) + if v[i] {
            seq![i]
        } else {
            Seq::<int>::empty()
        },
{
    assert(v.take(i + 1).drop_last() =~= v.take(i));
}

pub proof fn lemma_index_seq_skip(v: Seq<bool>, a: int, b: int)
    requires
        0 <= a <= b <= v.len(),
        forall|p: int| a <= p < b ==> !v[p],
    ensures
        set_index_seq(v.take(b)) == set_index_seq(v.take(a)),
    decreases b - a,
{
    if a < b {
        lemma_index_seq_skip(v, a, b - 1);
        lemma_index_seq_step(v, b - 1);
        assert(set_index_seq(v.take(b - 1)) + Seq::<int>::empty() =~= set_index_seq(v.take(b - 1)));
    }
}

/// Complementing turns the count of set bits into the count of clear ones.
pub proof fn lemma_count_not(v: Seq<bool>)
    ensures
        count_spec(seq_not(v)) + count_spec(v) == v.len(),
    decreases v.len(),
{
    if v.len() > 0 {
        lemma_count_not(v.drop_last());
        assert(seq_not(v).drop_last() =~= seq_not(v.drop_last()));
    }
}

/// The count never exceeds the length.
pub proof fn lemma_count_bound(v: Seq<bool>)
    ensures
        count_spec(v) <= v.len(),
    decreases v.len(),
{
    if v.len() > 0 {
        lemma_count_bound(v.drop_last());
    }
}

/// Clear bits add nothing to the count.
pub proof fn lemma_count_skip(v: Seq<bool>, a: int, b: int)
    requires
        0 <= a <= b <= v.len(),
        forall|p: int| a <= p < b ==> !v[p],
    ensures
        count_spec(v.take(b)) == count_spec(v.take(a)),
    decreases b - a,
{
    if a < b {
        lemma_count_skip(v, a, b - 1);
        lemma_count_step(v, b - 1);
    }
}

impl Clone for BitArray {
    fn clone(&self) -> (r: Self)
        ensures
            r.block_seq() == self.block_seq(),
            r.same_shape(self),
            self.wf() ==> r.wf(),
            r@ == self@,
    {
        let mut out: Vec<u64> = Vec::new();
        let mut s: usize = 0;
        while s < self.blocks.len()
            invariant
                s <= self.blocks@.len(),
                out@ == self.blocks@.subrange(0, s as int),
            decreases self.blocks@.len() - s,
        {
            out.push(self.blocks[s]);
            s = s + 1;
            proof {
                assert(out@ =~= self.blocks@.subrange(0, s as int));
            }
        }
        proof {
            assert(out@ =~= self.blocks@);
        }
        let r = BitArray { blocks: out, block_bits: self.block_bits };
        proof {
            assert(r@ =~= self@);
            if self.wf() {
                self.lemma_wf_blocks();
                assert forall|t: int| 0 <= t < r.nblocks() implies fits(#[trigger] r.block_seq()[t], r.block_bits as u64) by {
                    assert(r.block_seq()[t] == self.blocks@[t]);
                }
            }
        }
        r
    }
}

impl PartialEq for BitArray {
    fn eq(&self, other: &BitArray) -> (r: bool) {
        if self.block_bits != other.block_bits || self.blocks.len() != other.blocks.len() {
            return false;
        }
        let mut s: usize = 0;
        while s < self.blocks.len()
            invariant
                self.blocks@.len() == other.blocks@.len(),
                s <= self.blocks@.len(),
                forall|t: int| 0 <= t < s ==> self.blocks@[t] == other.blocks@[t],
            decreases self.blocks@.len() - s,
        {
            if self.blocks[s] != other.blocks[s] {
                return false;
            }
            s = s + 1;
        }
        proof {
            assert(self.blocks@ =~= other.blocks@);
        }
        true
    }
}

impl vstd::std_specs::cmp::PartialEqSpecImpl for BitArray {
    open spec fn obeys_eq_spec() -> bool {
        true
    }

    open spec fn eq_spec(&self, other: &BitArray) -> bool {
        self.block_seq() == other.block_seq() && self.width() == other.width()
    }
}

impl Eq for BitArray {

}

/// A cursor over the indices whose bit equals `value`: lowest first, or highest first
/// when `reverse`.
#[derive(Debug)]
pub struct BitArrayIter {
    target: BitArray,
    bound: usize,
    value: bool,
    reverse: bool,
}

impl BitArrayIter {
    pub closed spec fn target(&self) -> BitArray {
        self.target
    }

    /// Forwards, the indices below this one have been handed out or skipped; in reverse,
    /// those at or above it.
    pub closed spec fn position(&self) -> nat {
        self.bound as nat
    }

    pub closed spec fn value(&self) -> bool {
        self.value
    }

    pub closed spec fn reverse(&self) -> bool {
        self.reverse
    }

    pub open spec fn wf(&self) -> bool {
        self.target().wf() && self.position() <= self.target().len()
    }

    /// The next index, in the iterator's order, whose bit equals the iterator's value.
    pub fn next(&mut self) -> (r: Option<usize>)
        requires
            old(self).wf(),
        ensures
            final(self).wf(),
            final(self).target() == old(self).target(),
            final(self).value() == old(self).value(),
            final(self).reverse() == old(self).reverse(),
            !old(self).reverse() ==> match r {
                Some(i) => old(self).position() <= i < old(self).target().len()
                    && old(self).target()@[i as int] == old(self).value()
                    && (forall|p: int| old(self).position() <= p < i ==> old(self).target()@[p] != old(self).value())
                    && final(self).position() == i + 1,
                None => (forall|p: int|
                    old(self).position() <= p < old(self).target().len() ==> old(self).target()@[p]
                        != old(self).value()) && final(self).position() == old(self).position(),
            },
            old(self).reverse() ==> match r {
                Some(i) => i < old(self).position() && old(self).target()@[i as int] == old(self).value()
                    && (forall|p: int| i < p < old(self).position() ==> old(self).target()@[p] != old(self).value())
                    && final(self).position() == i,
                None => (forall|p: int| 0 <= p < old(self).position() ==> old(self).target()@[p] != old(self).value())
                    && final(self).position() == old(self).position(),
            },
    {
        if !self.reverse {
            match self.target.find_from(self.bound, self.value) {
                Some(i) => {
                    self.bound = i + 1;
                    Some(i)
                },
                None => None,
            }
        } else {
            match self.target.find_back(self.bound, self.value) {
                Some(i) => {
                    self.bound = i;
                    Some(i)
                },
                None => None,
            }
        }
    }
}

/// A cursor that hands out the set bits of a vector, lowest first, clearing each one.
#[derive(Debug)]
pub struct BitIter {
    value: BitArray,
}

impl BitIter {
    /// The bits not handed out yet.
    pub closed spec fn rest(&self) -> Seq<bool> {
        self.value@
    }

    pub closed spec fn wf(&self) -> bool {
        self.value.wf()
    }

    pub fn new(value: BitArray) -> (r: BitIter)
        requires
            value.wf(),
        ensures
            r.wf(),
            r.rest() == value@,
    {
        BitIter { value }
    }

    /// The lowest bit not handed out yet.
    pub fn next(&mut self) -> (r: Option<usize>)
        requires
            old(self).wf(),
        ensures
            final(self).wf(),
            match r {
                Some(i) => i < old(self).rest().len() && old(self).rest()[i as int] && (forall|j: int|
                    0 <= j < i ==> !old(self).rest()[j]) && final(self).rest() == old(self).rest().update(
                    i as int,
                    false,
                ),
                None => (forall|j: int| 0 <= j < old(self).rest().len() ==> !old(self).rest()[j])
                    && final(self).rest() == old(self).rest(),
            },
    {
        match self.value.first_set() {
            Some(i) => {
                self.value.clear(i);
                Some(i)
            },
            None => None,
        }
    }
}

} // verus!
