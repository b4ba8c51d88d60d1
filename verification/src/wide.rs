//! The 128-bit carrier of the field codec.
//!
//! `vstd` ties shifts to powers of two only up to 64 bits, so this module
//! derives the few facts it needs at 128 bits itself: an exact left shift
//! is a multiplication, and masking is a remainder. The extraction and
//! insertion code mirrors the 64-bit carrier.

use crate::bits::{
    bits_of, lemma_all_ones_shift, lemma_bits_of_bound, lemma_decompose, lemma_mod_div_shift,
    lemma_pow2_increases, lemma_with_bits_bound, with_bits,
};
use crate::codec::{Pack, Unpack};
use crate::range::BitRange;
use vstd::arithmetic::div_mod::{lemma_fundamental_div_mod, lemma_small_mod};
use vstd::arithmetic::power2::{
    lemma2_to64, lemma_pow2_adds, lemma_pow2_pos, lemma_pow2_strictly_increases, lemma_pow2_unfold,
    pow2,
};
use vstd::bits::{lemma_u128_shr_is_div, low_bits_mask};
use vstd::layout::unsigned_int_max_values;
use vstd::prelude::*;

verus! {

/// A left shift that loses no bits multiplies by a power of two.
proof fn lemma_u128_shl_exact(x: u128, k: nat)
    requires
        k < 128,
        (x as nat) * pow2(k) < pow2(128),
    ensures
        ((x << (k as u128)) as nat) == (x as nat) * pow2(k),
    decreases k,
{
    if k == 0 {
        assert(x << 0u128 == x) by (bit_vector);
        lemma2_to64();
        assert((x as nat) * 1 == x as nat) by (nonlinear_arith);
    } else {
        lemma_pow2_unfold(k);
        lemma_pow2_pos((k - 1) as nat);
        assert((x as nat) * pow2((k - 1) as nat) < pow2(128)) by (nonlinear_arith)
            requires
                (x as nat) * pow2(k) < pow2(128),
                pow2(k) == 2 * pow2((k - 1) as nat),
                0 < pow2((k - 1) as nat),
        ;
        lemma_u128_shl_exact(x, (k - 1) as nat);
        let y = x << (((k - 1) as nat) as u128);
        // The doubled shift stays below the carrier's capacity.
        unsigned_int_max_values();
        lemma_all_ones_shift(128, 1);
        assert((u128::MAX >> 1u128) as nat == (u128::MAX as nat) / pow2(1)) by {
            lemma_u128_shr_is_div(u128::MAX, 1u128);
        }
        lemma2_to64();
        assert((y as nat) * 2 < pow2(128)) by (nonlinear_arith)
            requires
                y as nat == (x as nat) * pow2((k - 1) as nat),
                (x as nat) * pow2(k) < pow2(128),
                pow2(k) == 2 * pow2((k - 1) as nat),
        ;
        let kk = k as u128;
        assert(y <= u128::MAX >> 1u128 ==> (x << kk) == y * 2) by (bit_vector)
            requires
                0 < kk < 128,
                y == x << ((kk - 1) as u128),
        ;
        assert((x << kk) as nat == (x as nat) * pow2(k)) by (nonlinear_arith)
            requires
                (x << kk) as nat == (y as nat) * 2,
                y as nat == (x as nat) * pow2((k - 1) as nat),
                pow2(k) == 2 * pow2((k - 1) as nat),
        ;
    }
}

/// The shift `1 << k` is `2^k`, for every shift the carrier admits.
proof fn lemma_u128_pow2_shift(k: nat)
    requires
        k < 128,
    ensures
        ((1u128 << (k as u128)) as nat) == pow2(k),
{
    lemma_pow2_strictly_increases(k, 128);
    lemma_u128_shl_exact(1, k);
    assert(1 * pow2(k) == pow2(k)) by (nonlinear_arith);
}

/// Masking with the low `e`-bit mask is a remainder by `2^e`.
proof fn lemma_u128_mask_is_mod(x: u128, m: u128, e: nat)
    requires
        e <= 128,
        m as nat == low_bits_mask(e),
    ensures
        ((x & m) as nat) == (x as nat) % pow2(e),
{
    unsigned_int_max_values();
    if e == 128 {
        assert(m == u128::MAX);
        assert(x & u128::MAX == x) by (bit_vector);
        lemma_small_mod(x as nat, pow2(128));
    } else if e == 0 {
        lemma2_to64();
        assert(m == 0);
        assert(x & 0 == 0) by (bit_vector);
        assert((x as nat) % 1 == 0) by (nonlinear_arith);
    } else {
        let k = e as u128;
        lemma_u128_pow2_shift(e);
        lemma_pow2_pos(e);
        assert((1u128 << k) >= 1);
        assert(m == ((1u128 << k) - 1) as u128);
        assert((x & m) == x - ((x >> k) << k)) by (bit_vector)
            requires
                0 < k < 128,
                m == ((1u128 << k) - 1) as u128,
        ;
        lemma_u128_shr_is_div(x, k);
        let q = (x as nat) / pow2(e);
        lemma_pow2_pos(e);
        lemma_fundamental_div_mod(x as int, pow2(e) as int);
        assert(q * pow2(e) <= x as nat);
        lemma_pow2_strictly_increases(e, 128);
        assert(q * pow2(e) < pow2(128));
        lemma_u128_shl_exact(x >> k, e);
    }
}

/// The low-`end`-bit mask at 128 bits; the all-ones word at the full
/// carrier width, where the shift `1 << end` would overflow.
pub fn mask_for_wide(end: usize) -> (m: u128)
    requires
        end <= 128,
    ensures
        m as nat == low_bits_mask(end as nat),
{
    if end == 128 {
        proof {
            unsigned_int_max_values();
        }
        u128::MAX
    } else {
        proof {
            lemma_u128_pow2_shift(end as nat);
            lemma_pow2_pos(end as nat);
        }
        (1u128 << (end as u128)) - 1
    }
}

/// Masking with a shifted mask reads the field above the shift distance.
#[verifier::rlimit(100)]
proof fn lemma_wide_and_mask_shifted(w: u128, m: u128, k: u128)
    by (bit_vector)
    requires
        k < 128,
    ensures
        w & (m << k) == ((w >> k) & m) << k,
{
}

/// Shifting commutes with masking.
#[verifier::rlimit(100)]
proof fn lemma_wide_shl_and_mask(v: u128, m: u128, k: u128)
    by (bit_vector)
    requires
        k < 128,
    ensures
        (v << k) & (m << k) == ((v & m) << k),
{
}

/// Clearing masked bits subtracts their value.
proof fn lemma_wide_clear_field(x: u128, m: u128)
    by (bit_vector)
    ensures
        (x & m) <= x,
        (x & !m) == x - (x & m),
{
}

/// An or of values with disjoint bits is their sum.
proof fn lemma_wide_or_disjoint_parts(x: u128, y: u128, m: u128)
    by (bit_vector)
    ensures
        ((x & !m) | (y & m)) == (x & !m) + (y & m),
{
}

/// Extracts the bits of a 128-bit word covered by `range`.
pub fn extract_wide(word: u128, range: BitRange) -> (r: u128)
    requires
        range.wf(128),
    ensures
        r as nat == bits_of(word as nat, range.off(), range.size()),
        (r as nat) < pow2(range.size()),
{
    let mask = mask_for_wide(range.end);
    let masked = word & mask;
    proof {
        lemma_u128_mask_is_mod(word, mask, range.end as nat);
        assert(range.end as nat == range.off() + range.size());
        lemma_mod_div_shift(word as nat, range.off(), range.size());
        lemma_u128_shr_is_div(masked, (range.start - 1) as u128);
        lemma_bits_of_bound(word as nat, range.off(), range.size());
    }
    masked >> ((range.start - 1) as u128)
}

/// Inserts the low bits of `value` into a 128-bit word at `range`.
pub fn insert_wide(word: u128, value: u128, range: BitRange) -> (r: u128)
    requires
        range.wf(128),
    ensures
        r as nat == with_bits(word as nat, range.off(), range.size(), value as nat),
        (r as nat) < pow2(128),
{
    let len = range.end - range.start + 1;
    let sh = (range.start - 1) as u128;
    let len_mask = mask_for_wide(len);
    let mask_sh = len_mask << sh;
    let cleared = word & !mask_sh;
    let placed = (value << sh) & mask_sh;
    let r = cleared | placed;
    proof {
        let off = range.off();
        let lenn = range.size();
        let po = pow2(off);
        let pl = pow2(lenn);
        let pe = pow2(off + lenn);
        let ww = word as nat;
        lemma_pow2_pos(off);
        lemma_pow2_pos(lenn);
        lemma_pow2_adds(off, lenn);
        lemma_pow2_increases(off + lenn, 128);
        unsigned_int_max_values();
        // The bits the range covers, as a number.
        let fld = bits_of(ww, off, lenn);
        lemma_bits_of_bound(ww, off, lenn);
        // word & mask_sh holds exactly those bits, in place.
        lemma_wide_and_mask_shifted(word, len_mask, sh);
        lemma_u128_shr_is_div(word, sh);
        lemma_u128_mask_is_mod(word >> sh, len_mask, lenn);
        assert(((word >> sh) & len_mask) as nat == fld);
        assert(fld * po <= (pl - 1) * po) by (nonlinear_arith)
            requires
                fld <= pl - 1,
                0 < po,
        ;
        assert((pl - 1) * po == pe - po) by (nonlinear_arith)
            requires
                pe == po * pl,
        ;
        lemma_u128_shl_exact((word >> sh) & len_mask, off);
        assert((word & mask_sh) as nat == fld * po);
        // cleared == word - fld * 2^off.
        lemma_wide_clear_field(word, mask_sh);
        // placed holds the low bits of value, in place.
        lemma_wide_shl_and_mask(value, len_mask, sh);
        lemma_u128_mask_is_mod(value, len_mask, lenn);
        let vt = (value as nat) % pl;
        lemma_small_mod(vt, pl);
        assert(vt * po <= (pl - 1) * po) by (nonlinear_arith)
            requires
                vt <= pl - 1,
                0 < po,
        ;
        lemma_u128_shl_exact(value & len_mask, off);
        assert(placed as nat == vt * po);
        // The or combines the disjoint parts into the new word.
        lemma_wide_or_disjoint_parts(word, value << sh, mask_sh);
        lemma_decompose(ww, off, lenn);
        assert(r as nat == with_bits(ww, off, lenn, value as nat));
        lemma_with_bits_bound(ww, off, lenn, value as nat, 128);
    }
    r
}

impl Unpack for u128 {
    open spec fn width() -> nat {
        128
    }

    open spec fn as_word(self) -> nat {
        self as nat
    }

    proof fn lemma_word_bound(self) {
        unsigned_int_max_values();
    }

    fn width_exec() -> usize {
        128
    }

    fn extract(&self, range: BitRange) -> (r: u128) {
        extract_wide(*self, range)
    }
}

impl Pack for u128 {
    fn insert(&mut self, value: u128, range: BitRange) {
        *self = insert_wide(*self, value, range);
        proof {
            crate::bits::lemma_with_bits_parts(
                (*old(self)) as nat,
                range.off(),
                range.size(),
                value as nat,
            );
        }
    }
}

} // verus!
