//! Facts about single machine words holding `k` meaningful low bits.
use vstd::prelude::*;

verus! {

/// Bit `j` of word `w` (bit 0 is the least significant one).
pub open spec fn wbit(w: u64, j: u64) -> bool {
    (w >> j) & 1u64 == 1u64
}

/// A word of width `k` has no bit set at or above `k`.
pub open spec fn fits(w: u64, k: u64) -> bool {
    k >= 64 || w < (1u64 << k)
}

/// The word whose low `e` bits are set (`e <= 64`).
pub open spec fn low_mask_spec(e: u64) -> u64 {
    if e >= 64 {
        0xffff_ffff_ffff_ffffu64
    } else {
        ((1u64 << e) - 1) as u64
    }
}

pub fn low_mask(e: u32) -> (r: u64)
    requires
        e <= 64,
    ensures
        r == low_mask_spec(e as u64),
        forall|j: u64| j < 64 ==> (#[trigger] wbit(r, j) <==> j < e),
{
    let r: u64 = if e >= 64 {
        0xffff_ffff_ffff_ffffu64
    } else {
        proof {
            let ee = e as u64;
            assert(1u64 << ee >= 1) by (bit_vector)
                requires
                    ee < 64,
            ;
        }
        (1u64 << e) - 1
    };
    proof {
        lemma_low_mask_bits(e as u64);
    }
    r
}

pub proof fn lemma_low_mask_bits(e: u64)
    requires
        e <= 64,
    ensures
        forall|j: u64| j < 64 ==> (#[trigger] wbit(low_mask_spec(e), j) <==> j < e),
        fits(low_mask_spec(e), e),
{
    if e < 64 {
        assert(forall|j: u64|
            j < 64 ==> (#[trigger] ((((1u64 << e) - 1) as u64) >> j) & 1u64 == 1u64 <==> j < e))
            by (bit_vector)
            requires
                e < 64,
        ;
        assert((((1u64 << e) - 1) as u64) < (1u64 << e)) by (bit_vector)
            requires
                e < 64,
        ;
    } else {
        assert(forall|j: u64| j < 64 ==> #[trigger] (0xffff_ffff_ffff_ffffu64 >> j) & 1u64 == 1u64)
            by (bit_vector);
    }
}

/// A word of width `k` has no bit at or above `k`.
pub proof fn lemma_fits(w: u64, k: u64)
    requires
        1 <= k <= 64,
        fits(w, k),
    ensures
        forall|j: u64| k <= j < 64 ==> !#[trigger] wbit(w, j),
{
    if k < 64 {
        assert(forall|j: u64| k <= j < 64 ==> !(#[trigger] (w >> j) & 1u64 == 1u64))
            by (bit_vector)
            requires
                k < 64,
                w < (1u64 << k),
        ;
    }
}

/// A nonzero word has a set bit.
pub proof fn lemma_nonzero_bit(w: u64)
    requires
        w != 0,
    ensures
        exists|j: u64| j < 64 && #[trigger] wbit(w, j),
{
    vstd::std_specs::bits::axiom_u64_trailing_zeros(w);
    let t = vstd::std_specs::bits::u64_trailing_zeros(w) as u64;
    assert(wbit(w, t));
}

pub proof fn lemma_fits_zero(k: u64)
    requires
        1 <= k <= 64,
    ensures
        fits(0u64, k),
{
    if k < 64 {
        assert(0u64 < (1u64 << k)) by (bit_vector)
            requires
                k < 64,
        ;
    }
}

/// The highest set bit of a nonzero word, from its leading-zero count.
pub proof fn lemma_top_bit(w: u64)
    requires
        w != 0,
    ensures
        vstd::std_specs::bits::u64_leading_zeros(w) < 64,
        wbit(w, (63 - vstd::std_specs::bits::u64_leading_zeros(w)) as u64),
        forall|j: u64|
            64 - vstd::std_specs::bits::u64_leading_zeros(w) <= j < 64 ==> !#[trigger] wbit(w, j),
{
    vstd::std_specs::bits::axiom_u64_leading_zeros(w);
    let t = (63 - vstd::std_specs::bits::u64_leading_zeros(w)) as u64;
    assert(((w >> t) & 1u64 != 0u64) ==> ((w >> t) & 1u64 == 1u64)) by (bit_vector);
}

pub proof fn lemma_zero_bits()
    ensures
        forall|j: u64| j < 64 ==> !#[trigger] wbit(0u64, j),
{
    assert(forall|j: u64| j < 64 ==> !(#[trigger] (0u64 >> j) & 1u64 == 1u64)) by (bit_vector);
}

/// Bits of the three bitwise combinations and of the complement.
pub proof fn lemma_bitwise(a: u64, b: u64)
    ensures
        forall|j: u64| j < 64 ==> (#[trigger] wbit(a & b, j) <==> wbit(a, j) && wbit(b, j)),
        forall|j: u64| j < 64 ==> (#[trigger] wbit(a | b, j) <==> wbit(a, j) || wbit(b, j)),
        forall|j: u64| j < 64 ==> (#[trigger] wbit(a ^ b, j) <==> wbit(a, j) != wbit(b, j)),
        forall|j: u64| j < 64 ==> (#[trigger] wbit(!a, j) <==> !wbit(a, j)),
{
    assert(forall|j: u64|
        j < 64 ==> ((#[trigger] ((a & b) >> j) & 1u64 == 1u64) <==> ((a >> j) & 1u64 == 1u64) && ((
        b >> j) & 1u64 == 1u64))) by (bit_vector);
    assert(forall|j: u64|
        j < 64 ==> ((#[trigger] ((a | b) >> j) & 1u64 == 1u64) <==> ((a >> j) & 1u64 == 1u64) || ((
        b >> j) & 1u64 == 1u64))) by (bit_vector);
    assert(forall|j: u64|
        j < 64 ==> ((#[trigger] ((a ^ b) >> j) & 1u64 == 1u64) <==> ((a >> j) & 1u64 == 1u64) != ((
        b >> j) & 1u64 == 1u64))) by (bit_vector);
    assert(forall|j: u64|
        j < 64 ==> ((#[trigger] (!a >> j) & 1u64 == 1u64) <==> !((a >> j) & 1u64 == 1u64)))
        by (bit_vector);
}

/// Bitwise combinations of words of width `k` have width `k`.
pub proof fn lemma_fits_bitwise(a: u64, b: u64, k: u64)
    requires
        1 <= k <= 64,
        fits(a, k),
        fits(b, k),
    ensures
        fits(a & b, k),
        fits(a | b, k),
        fits(a ^ b, k),
        fits(!a & low_mask_spec(k), k),
        fits(a & !b, k),
{
    if k < 64 {
        assert(a & b < (1u64 << k) && a | b < (1u64 << k) && a ^ b < (1u64 << k) && !a & (((1u64
            << k) - 1) as u64) < (1u64 << k) && a & !b < (1u64 << k)) by (bit_vector)
            requires
                k < 64,
                a < (1u64 << k),
                b < (1u64 << k),
        ;
    }
}

pub proof fn lemma_single_bit(b: u64)
    requires
        b < 64,
    ensures
        forall|j: u64| j < 64 ==> (#[trigger] wbit(1u64 << b, j) <==> j == b),
{
    assert(forall|j: u64| j < 64 ==> ((#[trigger] ((1u64 << b) >> j) & 1u64 == 1u64) <==> j == b))
        by (bit_vector)
        requires
            b < 64,
    ;
}

/// The word of width `k` whose bit `j` is bit `j - r` of `a` for `j >= r`, and bit
/// `j + k - r` of `b` below `r`: the low word's spill fills the vacated bits.
pub open spec fn shl_pair_spec(a: u64, b: u64, r: u64, k: u64) -> u64 {
    if r == 0 {
        a
    } else {
        ((a << r) & low_mask_spec(k)) | (b >> ((k - r) as u64))
    }
}

/// The word of width `k` whose bit `j` is bit `j + r` of `a` while that stays below `k`,
/// and bit `j + r - k` of `b` above.
pub open spec fn shr_pair_spec(a: u64, b: u64, r: u64, k: u64) -> u64 {
    if r == 0 {
        a
    } else {
        (a >> r) | ((b << ((k - r) as u64)) & low_mask_spec(k))
    }
}

pub proof fn lemma_shl_pair(a: u64, b: u64, r: u64, k: u64)
    requires
        1 <= k <= 64,
        r < k,
        fits(a, k),
        fits(b, k),
    ensures
        fits(shl_pair_spec(a, b, r, k), k),
        forall|j: u64|
            j < k ==> (#[trigger] wbit(shl_pair_spec(a, b, r, k), j) <==> if j >= r {
                wbit(a, (j - r) as u64)
            } else {
                wbit(b, (j + k - r) as u64)
            }),
{
    if r > 0 && k < 64 {
        let m = ((1u64 << k) - 1) as u64;
        assert forall|j: u64| j < k implies (#[trigger] wbit(shl_pair_spec(a, b, r, k), j) <==> if j
            >= r {
            wbit(a, (j - r) as u64)
        } else {
            wbit(b, (j + k - r) as u64)
        }) by {
            assert(((((((a << r) & m) | (b >> ((k - r) as u64))) >> j) & 1u64) == 1u64) <==> if j
                >= r {
                ((a >> ((j - r) as u64)) & 1u64 == 1u64)
            } else {
                ((b >> ((j + k - r) as u64)) & 1u64 == 1u64)
            }) by (bit_vector)
                requires
                    k < 64,
                    0 < r < k,
                    j < k,
                    m == ((1u64 << k) - 1) as u64,
                    b < (1u64 << k),
            ;
        }
        assert((((a << r) & m) | (b >> ((k - r) as u64))) < (1u64 << k)) by (bit_vector)
            requires
                k < 64,
                0 < r < k,
                m == ((1u64 << k) - 1) as u64,
                b < (1u64 << k),
        ;
    } else if r > 0 {
        let m = 0xffff_ffff_ffff_ffffu64;
        assert(forall|j: u64|
            j < 64 ==> ((#[trigger] (((((a << r) & m) | (b >> ((64 - r) as u64))) >> j) & 1u64)
                == 1u64) <==> if j >= r {
                ((a >> ((j - r) as u64)) & 1u64 == 1u64)
            } else {
                ((b >> ((j + 64 - r) as u64)) & 1u64 == 1u64)
            })) by (bit_vector)
            requires
                0 < r < 64,
                m == 0xffff_ffff_ffff_ffffu64,
        ;
    }
}

pub proof fn lemma_shr_pair(a: u64, b: u64, r: u64, k: u64)
    requires
        1 <= k <= 64,
        r < k,
        fits(a, k),
        fits(b, k),
    ensures
        fits(shr_pair_spec(a, b, r, k), k),
        forall|j: u64|
            j < k ==> (#[trigger] wbit(shr_pair_spec(a, b, r, k), j) <==> if j + r < k {
                wbit(a, (j + r) as u64)
            } else {
                wbit(b, (j + r - k) as u64)
            }),
{
    if r > 0 && k < 64 {
        let m = ((1u64 << k) - 1) as u64;
        assert forall|j: u64| j < k implies (#[trigger] wbit(shr_pair_spec(a, b, r, k), j) <==> if j
            + r < k {
            wbit(a, (j + r) as u64)
        } else {
            wbit(b, (j + r - k) as u64)
        }) by {
            if j + r < k {
                assert((((((a >> r) | ((b << ((k - r) as u64)) & m)) >> j) & 1u64) == 1u64) <==> ((
                a >> ((j + r) as u64)) & 1u64 == 1u64)) by (bit_vector)
                    requires
                        k < 64,
                        0 < r < k,
                        j + r < k,
                        m == ((1u64 << k) - 1) as u64,
                ;
            } else {
                assert((((((a >> r) | ((b << ((k - r) as u64)) & m)) >> j) & 1u64) == 1u64) <==> ((
                b >> ((j + r - k) as u64)) & 1u64 == 1u64)) by (bit_vector)
                    requires
                        k < 64,
                        0 < r < k,
                        j < k <= j + r,
                        m == ((1u64 << k) - 1) as u64,
                        a < (1u64 << k),
                ;
            }
        }
        assert(((a >> r) | ((b << ((k - r) as u64)) & m)) < (1u64 << k)) by (bit_vector)
            requires
                k < 64,
                0 < r < k,
                m == ((1u64 << k) - 1) as u64,
                a < (1u64 << k),
        ;
    } else if r > 0 {
        let m = 0xffff_ffff_ffff_ffffu64;
        assert(forall|j: u64|
            j < 64 ==> ((#[trigger] ((((a >> r) | ((b << ((64 - r) as u64)) & m)) >> j) & 1u64)
                == 1u64) <==> if j + r < 64 {
                ((a >> ((j + r) as u64)) & 1u64 == 1u64)
            } else {
                ((b >> ((j + r - 64) as u64)) & 1u64 == 1u64)
            })) by (bit_vector)
            requires
                0 < r < 64,
                m == 0xffff_ffff_ffff_ffffu64,
        ;
    }
}

} // verus!
