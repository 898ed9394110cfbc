//! Primitive bit manipulation over 64-bit words.
use vstd::prelude::*;
use vstd::arithmetic::power2::*;
use vstd::bits::*;
use vstd::arithmetic::div_mod::lemma_div_denominator;

verus! {

/// Bit `i` of `v`, counted from the least significant bit.
pub open spec fn bit_of(v: nat, i: nat) -> bool {
    (v / pow2(i)) % 2 == 1
}

/// Scatter of `value` into the positions of `mask`: walking `mask` from its
/// low end, every set bit takes the next low bit of `value`, every clear bit
/// stays clear.
pub open spec fn scattered(mask: nat, value: nat) -> nat
    decreases mask,
{
    if mask == 0 {
        0
    } else if mask % 2 == 1 {
        value % 2 + 2 * scattered(mask / 2, value / 2)
    } else {
        2 * scattered(mask / 2, value)
    }
}

/// Scattering zero gives zero, whatever the mask.
pub proof fn lemma_scattered_zero(mask: nat)
    ensures
        scattered(mask, 0) == 0,
    decreases mask,
{
    if mask != 0 {
        lemma_scattered_zero(mask / 2);
    }
}

/// Scattering through a mask of the `k` low bits hands back every value
/// that fits in `k` bits unchanged.
pub proof fn lemma_scatter_width_mask_identity(k: nat, v: nat)
    requires
        v < pow2(k),
    ensures
        scattered(low_bits_mask(k), v) == v,
    decreases k,
{
    if k == 0 {
        lemma_low_bits_mask_values();
        lemma2_to64();
    } else {
        let k1 = (k - 1) as nat;
        lemma_low_bits_mask_unfold(k);
        lemma_low_bits_mask_is_odd(k);
        lemma_low_bits_mask_div2(k);
        lemma_pow2_unfold(k);
        assert(v / 2 < pow2(k1));
        lemma_scatter_width_mask_identity(k1, v / 2);
    }
}

/// The word whose `n` low bits are set and the others clear: all ones for
/// any `n` of 64 or more.
pub fn width_mask(n: u32) -> (r: u64)
    ensures
        r as nat == low_bits_mask(
            if n >= 64 {
                64
            } else {
                n as nat
            },
        ),
{
    if n >= 64 {
        proof {
            lemma_low_bits_mask_values();
        }
        u64::MAX
    } else {
        let r = !(u64::MAX << n);
        proof {
            let s = n as u64;
            assert(!(0xffff_ffff_ffff_ffffu64 << s) == (1u64 << s) - 1) by (bit_vector)
                requires
                    s < 64,
            ;
            lemma_u64_pow2_no_overflow(n as nat);
            lemma_u64_shl_is_mul(1, s);
        }
        r
    }
}

/// The byte of `v` at position `j`, counted from the least significant byte.
pub open spec fn byte_of(v: nat, j: nat) -> nat {
    (v / pow2(8 * j)) % 256
}

/// Whether bit `pos` of `value` is set.
pub fn is_bit_set(value: u64, pos: u32) -> (r: bool)
    requires
        pos < 64,
    ensures
        r == bit_of(value as nat, pos as nat),
{
    let s = pos as u64;
    let shifted = value >> s;
    proof {
        lemma_u64_shr_is_div(value, s);
        assert(shifted & 1 == shifted % 2) by (bit_vector);
    }
    shifted & 1 == 1
}

/// Places the bits of `value`, low bit first, at the set positions of
/// `mask`, low position first. Bits of `value` beyond the number of set bits
/// of `mask` are dropped; set positions beyond the bits of `value` stay clear.
pub fn scatter(mask: u64, value: u64) -> (r: u64)
    ensures
        r as nat == scattered(mask as nat, value as nat),
{
    let mut m = mask;
    let mut v = value;
    let mut ret: u64 = 0;
    let mut i: u64 = 0;
    proof {
        lemma2_to64();
        lemma2_to64_rest();
    }
    while i < 64
        invariant
            i <= 64,
            (m as nat) < pow2((64 - i) as nat),
            (ret as nat) < pow2(i as nat),
            ret + pow2(i as nat) * scattered(m as nat, v as nat) == scattered(
                mask as nat,
                value as nat,
            ),
        decreases 64 - i,
    {
        let ghost p = pow2(i as nat);
        let ghost old_ret = ret;
        let ghost old_m = m;
        let ghost old_v = v;
        proof {
            lemma_pow2_unfold((i + 1) as nat);
            lemma_pow2_unfold((64 - i) as nat);
            lemma_u64_pow2_no_overflow(i as nat);
            lemma_u64_shl_is_mul(1, i);
            assert(m & 1 == m % 2) by (bit_vector);
            assert(m >> 1 == m / 2) by (bit_vector);
        }
        if m & 1 == 1 {
            let b = v & 1;
            proof {
                assert(v & 1 == v % 2) by (bit_vector);
                assert(v & 1 <= 1) by (bit_vector);
                assert(v >> 1 == v / 2) by (bit_vector);
                assert(ret | (b << i) == ret + (b << i)) by (bit_vector)
                    requires
                        i < 64,
                        b <= 1,
                        ret < (1u64 << i),
                ;
                assert(b * p <= p) by (nonlinear_arith)
                    requires
                        b <= 1,
                        p > 0,
                ;
                lemma_u64_shl_is_mul(b, i);
            }
            ret = ret | (b << i);
            v = v >> 1;
            proof {
                let s = scattered(old_m as nat / 2, old_v as nat / 2);
                assert(scattered(old_m as nat, old_v as nat) == b + 2 * s);
                assert(old_ret + p * (b + 2 * s) == (old_ret + b * p) + (2 * p) * s)
                    by (nonlinear_arith);
            }
        } else {
            proof {
                let s = scattered(old_m as nat / 2, old_v as nat);
                assert(scattered(old_m as nat, old_v as nat) == 2 * s);
                assert(p * (2 * s) == (2 * p) * s) by (nonlinear_arith);
            }
        }
        m = m >> 1;
        i = i + 1;
    }
    proof {
        assert(pow2(0) == 1);
        assert(m == 0);
        assert(scattered(0, v as nat) == 0);
        assert(ret + pow2(64) * scattered(m as nat, v as nat) == ret);
    }
    ret
}

/// The `count` low bytes of `value`, least significant first; positions past
/// the eighth byte are zero.
pub fn to_bytes(value: u64, count: usize) -> (r: Vec<u8>)
    ensures
        r@.len() == count,
        forall|j: int| 0 <= j < count ==> r@[j] as nat == #[trigger] byte_of(value as nat, j as nat),
{
    let mut ret: Vec<u8> = Vec::new();
    let mut cur = value;
    let mut i: usize = 0;
    proof {
        lemma2_to64();
        assert(value as nat / 1 == value as nat);
    }
    while i < count
        invariant
            i <= count,
            ret@.len() == i,
            cur as nat == value as nat / pow2(8 * i as nat),
            forall|j: int| 0 <= j < i ==> ret@[j] as nat == #[trigger] byte_of(value as nat, j as nat),
        decreases count - i,
    {
        proof {
            let e = 8 * (i as nat);
            lemma2_to64();
            assert(cur & 0xff == cur % 256) by (bit_vector);
            assert(cur >> 8 == cur / 256) by (bit_vector);
            lemma_pow2_adds(e, 8);
            lemma_pow2_pos(e);
            lemma_div_denominator(value as int, pow2(e) as int, 256);
            assert(8 * ((i + 1) as nat) == e + 8);
        }
        ret.push((cur & 0xff) as u8);
        cur = cur >> 8;
        i = i + 1;
    }
    ret
}

} // verus!
