//! Rounding to powers of two.
use vstd::arithmetic::div_mod::*;
use vstd::arithmetic::power2::*;
use vstd::bits::*;
use vstd::prelude::*;

verus! {

/// Whether `value` is a power of two.
pub open spec fn is_pow2(value: int) -> bool {
    exists|k: nat| value == #[trigger] pow2(k)
}

/// The smallest multiple of `align` that is at least `value`.
pub open spec fn round_up(value: int, align: int) -> int {
    (value + align - 1) / align * align
}

proof fn lemma_pow2_even(k: nat)
    requires
        k > 0,
    ensures
        pow2(k) == 2 * pow2((k - 1) as nat),
        pow2((k - 1) as nat) > 0,
{
    lemma_pow2_unfold(k);
    lemma_pow2_pos((k - 1) as nat);
}

/// A nonzero word is a power of two exactly when it shares no bit with its predecessor.
proof fn lemma_single_bit(v: u32, p: u32)
    requires
        p + 1 == v,
    ensures
        is_pow2(v as int) <==> v & p == 0,
    decreases v,
{
    if v == 1 {
        lemma2_to64();
        assert(1u32 & 0u32 == 0) by (bit_vector);
        assert(pow2(0) == 1);
    } else {
        let h: u32 = v / 2;
        let q: u32 = (h - 1) as u32;
        assert(v & p == 0 ==> v % 2 == 0) by (bit_vector)
            requires
                v > 1u32,
                p + 1 == v,
        ;
        assert(v % 2 == 0 ==> (v & p == 0 <==> h & q == 0)) by (bit_vector)
            requires
                v > 1u32,
                p + 1 == v,
                h == v / 2,
                q + 1 == h,
        ;
        lemma_single_bit(h, q);
        if is_pow2(v as int) {
            let k = choose|k: nat| v as int == #[trigger] pow2(k);
            lemma2_to64();
            lemma_pow2_even(k);
            assert(h == pow2((k - 1) as nat));
            assert(is_pow2(h as int));
        }
        if v % 2 == 0 && is_pow2(h as int) {
            let k = choose|k: nat| h as int == #[trigger] pow2(k);
            lemma_pow2_even(k + 1);
            assert(v == pow2(k + 1));
        }
    }
}

/// Whether `value` is a power of two; zero is not.
pub fn is_power_of_two(value: u32) -> (result: bool)
    ensures
        result == is_pow2(value as int),
{
    if value == 0 {
        proof {
            assert forall|k: nat| 0 != #[trigger] pow2(k) by {
                lemma_pow2_pos(k);
            }
        }
        return false;
    }
    proof {
        lemma_single_bit(value, (value - 1) as u32);
    }
    value & (value - 1) == 0
}

proof fn lemma_mask_u64(value: u64, align: u64, mask: u64)
    requires
        is_pow2(align as int),
        mask + 1 == align,
    ensures
        value & mask == value % align,
        value & !mask == value / align * align,
{
    let k = choose|k: nat| align as int == #[trigger] pow2(k);
    if k >= 64 {
        lemma2_to64();
        if k > 64 {
            lemma_pow2_strictly_increases(64, k);
        }
        assert(pow2(64) == 0x1_0000_0000_0000_0000);
    }
    lemma_u64_low_bits_mask_is_mod(value, k);
    assert(low_bits_mask(k) == mask);
    assert(value & !mask == value - (value & mask)) by (bit_vector);
    lemma_fundamental_div_mod(value as int, align as int);
    vstd::arithmetic::mul::lemma_mul_is_commutative(align as int, value as int / align as int);
}

/// Masking with a power of two: the low bits are the remainder, the high bits the multiple below.
pub proof fn lemma_mask(value: usize, align: usize, mask: usize)
    requires
        is_pow2(align as int),
        mask + 1 == align,
    ensures
        value & mask == value % align,
        value & !mask == value / align * align,
{
    let v = value as u64;
    let m = mask as u64;
    lemma_mask_u64(v, align as u64, m);
    assert((value & mask) as u64 == v & m) by (bit_vector)
        requires
            v == value as u64,
            m == mask as u64,
    ;
    assert((value & !mask) as u64 == v & !m) by (bit_vector)
        requires
            v == value as u64,
            m == mask as u64,
    ;
}

/// A rounded value is a multiple of `align`, not below `value`, and less than `align` above it.
pub proof fn lemma_round_up(value: int, align: int)
    requires
        align > 0,
    ensures
        value <= round_up(value, align) < value + align,
        round_up(value, align) % align == 0,
{
    let q = (value + align - 1) / align;
    lemma_fundamental_div_mod(value + align - 1, align);
    vstd::arithmetic::mul::lemma_mul_is_commutative(align, q);
    lemma_mod_multiples_basic(q, align);
}

/// Rounds `value` up to the next multiple of `N`.
pub fn round_to_next_alignment_of<const N: usize>(value: usize) -> (result: usize)
    requires
        is_pow2(N as int),
        N > 0,
        value + N <= usize::MAX,
    ensures
        result == round_up(value as int, N as int),
{
    proof {
        lemma_mask((value + N - 1) as usize, N, (N - 1) as usize);
    }
    (value + N - 1) & !(N - 1)
}

/// One is a power of two, twice a power of two is one, and there are no others.
pub proof fn law_powers_of_two(value: int)
    ensures
        is_pow2(1),
        is_pow2(value) ==> value > 0 && is_pow2(2 * value),
        is_pow2(value) && value > 1 ==> value % 2 == 0 && is_pow2(value / 2),
{
    lemma2_to64();
    assert(pow2(0) == 1);
    if is_pow2(value) {
        let k = choose|k: nat| value == #[trigger] pow2(k);
        lemma_pow2_pos(k);
        lemma_pow2_even(k + 1);
        assert(2 * value == pow2(k + 1));
        if value > 1 {
            lemma_pow2_even(k);
            assert(value / 2 == pow2((k - 1) as nat));
        }
    }
}

/// The rounded value is the smallest multiple that is not below the value.
pub proof fn law_round_up_least(value: int, align: int, multiple: int)
    requires
        align > 0,
        value <= multiple * align,
    ensures
        value <= round_up(value, align) <= multiple * align,
        round_up(value, align) % align == 0,
{
    lemma_round_up(value, align);
    crate::header::layout::lemma_round_up_le(value, multiple, align);
}

} // verus!
