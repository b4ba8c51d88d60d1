//! The field codec: extracting and inserting bit ranges in machine words.
//!
//! One extraction and one insertion implementation exist per carrier: the
//! widths up to 64 bits share the 64-bit carrier below, with the word
//! width as an explicit parameter, and the 128-bit carrier lives beside it.
//! The per-width trait impls and the layout walker all delegate to them.
//! Most-significant-bit-first variants are coordinate reflections
//! (`BitRange::reflect`), never a second code path.

use crate::bits::{
    bits_of, lemma_bits_of_bound, lemma_decompose, lemma_mod_div_shift, lemma_pow2_increases,
    lemma_with_bits_bound, with_bits,
};
use crate::range::BitRange;
use vstd::arithmetic::div_mod::lemma_small_mod;
use vstd::arithmetic::power2::{lemma2_to64, lemma_pow2_adds, lemma_pow2_pos, pow2};
use vstd::bits::{
    lemma_u64_low_bits_mask_is_mod, lemma_u64_pow2_no_overflow, lemma_u64_shl_is_mul,
    lemma_u64_shr_is_div, low_bits_mask,
};
use vstd::layout::unsigned_int_max_values;
use vstd::prelude::*;

verus! {

/// Mask with the low `end` bits set. At `end == 64` the shift `1 << end`
/// would overflow the carrier, so the all-ones word is returned directly.
pub fn mask_for(end: usize) -> (m: u64)
    requires
        end <= 64,
    ensures
        m as nat == low_bits_mask(end as nat),
{
    if end == 64 {
        proof {
            lemma2_to64();
        }
        u64::MAX
    } else {
        proof {
            lemma_u64_pow2_no_overflow(end as nat);
            lemma_u64_shl_is_mul(1u64, end as u64);
        }
        (1u64 << (end as u64)) - 1
    }
}

/// Masking with a shifted mask reads the field above the shift distance.
proof fn lemma_and_mask_shifted(w: u64, m: u64, k: u64)
    by (bit_vector)
    requires
        k < 64,
    ensures
        w & (m << k) == ((w >> k) & m) << k,
{
}

/// Shifting commutes with masking.
proof fn lemma_shl_and_mask(v: u64, m: u64, k: u64)
    by (bit_vector)
    requires
        k < 64,
    ensures
        (v << k) & (m << k) == ((v & m) << k),
{
}

/// Clearing masked bits subtracts their value.
proof fn lemma_clear_field(x: u64, m: u64)
    by (bit_vector)
    ensures
        (x & m) <= x,
        (x & !m) == x - (x & m),
{
}

/// An or of values with disjoint bits is their sum.
proof fn lemma_or_disjoint_parts(x: u64, y: u64, m: u64)
    by (bit_vector)
    ensures
        ((x & !m) | (y & m)) == (x & !m) + (y & m),
{
}

/// The value of the low `len` bits of `x`, as a remainder.
pub(crate) proof fn lemma_mask_is_mod(x: u64, len: nat)
    requires
        len <= 64,
    ensures
        (x & (low_bits_mask(len) as u64)) as nat == (x as nat) % pow2(len),
{
    if len == 64 {
        lemma2_to64();
        assert(low_bits_mask(64) == 0xffff_ffff_ffff_ffffnat);
        assert(x & 0xffff_ffff_ffff_ffffu64 == x) by (bit_vector);
        lemma_small_mod(x as nat, pow2(64));
    } else {
        lemma_u64_pow2_no_overflow(len);
        lemma_u64_low_bits_mask_is_mod(x, len);
    }
}

/// Extracts the bits of `word` covered by `range`, shifted down to the
/// least-significant end: `(word & mask) >> (start - 1)`.
pub fn extract_word(word: u64, range: BitRange, width: usize) -> (r: u64)
    requires
        width <= 64,
        range.wf(width as nat),
        (word as nat) < pow2(width as nat),
    ensures
        r as nat == bits_of(word as nat, range.off(), range.size()),
        (r as nat) < pow2(range.size()),
{
    let mask = mask_for(range.end);
    let masked = word & mask;
    proof {
        lemma_mask_is_mod(word, range.end as nat);
        assert(range.end as nat == range.off() + range.size());
        lemma_mod_div_shift(word as nat, range.off(), range.size());
        lemma_u64_shr_is_div(masked, (range.start - 1) as u64);
        lemma_bits_of_bound(word as nat, range.off(), range.size());
    }
    masked >> ((range.start - 1) as u64)
}

/// Inserts the low `end - start + 1` bits of `value` into `word` at
/// `range`: the covered bits are cleared and replaced, every other bit is
/// left unchanged.
pub fn insert_word(word: u64, value: u64, range: BitRange, width: usize) -> (r: u64)
    requires
        width <= 64,
        range.wf(width as nat),
        (word as nat) < pow2(width as nat),
    ensures
        r as nat == with_bits(word as nat, range.off(), range.size(), value as nat),
        (r as nat) < pow2(width as nat),
{
    let len = range.end - range.start + 1;
    let sh = (range.start - 1) as u64;
    let len_mask = mask_for(len);
    let mask_sh = len_mask << sh;
    let cleared = word & !mask_sh;
    let placed = (value << sh) & mask_sh;
    let r = cleared | placed;
    proof {
        let off = range.off();
        let lenn = range.size();
        let po = pow2(off);
        let pl = pow2(lenn);
        let pe = pow2(off + lenn);
        let ww = word as nat;
        lemma_pow2_pos(off);
        lemma_pow2_pos(lenn);
        lemma_pow2_adds(off, lenn);
        lemma_pow2_increases(off + lenn, 64);
        lemma2_to64();
        // The bits the range covers, as a number.
        let fld = bits_of(ww, off, lenn);
        lemma_bits_of_bound(ww, off, lenn);
        // word & mask_sh holds exactly those bits, in place.
        lemma_and_mask_shifted(word, len_mask, sh);
        lemma_u64_shr_is_div(word, sh);
        lemma_mask_is_mod(word >> sh, lenn);
        assert(((word >> sh) & len_mask) as nat == fld);
        assert(fld * po <= (pl - 1) * po) by (nonlinear_arith)
            requires
                fld <= pl - 1,
                0 < po,
        ;
        assert((pl - 1) * po == pe - po) by (nonlinear_arith)
            requires
                pe == po * pl,
        ;
        lemma_u64_shl_is_mul((word >> sh) & len_mask, sh);
        assert((word & mask_sh) as nat == fld * po);
        // cleared == word - fld * 2^off.
        lemma_clear_field(word, mask_sh);
        // placed holds the low bits of value, in place.
        lemma_shl_and_mask(value, len_mask, sh);
        lemma_mask_is_mod(value, lenn);
        let vt = (value as nat) % pl;
        lemma_small_mod(vt, pl);
        assert(vt * po <= (pl - 1) * po) by (nonlinear_arith)
            requires
                vt <= pl - 1,
                0 < po,
        ;
        lemma_u64_shl_is_mul(value & len_mask, sh);
        assert(placed as nat == vt * po);
        // The or combines the disjoint parts into the new word.
        lemma_or_disjoint_parts(word, value << sh, mask_sh);
        lemma_decompose(ww, off, lenn);
        assert(r as nat == with_bits(ww, off, lenn, value as nat));
        lemma_with_bits_bound(ww, off, lenn, value as nat, width as nat);
    }
    r
}

/// Reading sub-fields of a word: least-significant-bit-first `extract`,
/// with `extract_msb` as the reflected variant.
pub trait Unpack: Sized {
    /// Bit width of the word type.
    spec fn width() -> nat;

    /// The word as a number.
    spec fn as_word(self) -> nat;

    /// Every value fits in `width()` bits.
    proof fn lemma_word_bound(self)
        ensures
            self.as_word() < pow2(Self::width()),
            1 <= Self::width(),
    ;

    fn width_exec() -> (w: usize)
        ensures
            w as nat == Self::width(),
    ;

    /// The value of the bits covered by `range`, 1-indexed from the
    /// least-significant bit.
    fn extract(&self, range: BitRange) -> (r: Self)
        requires
            range.wf(Self::width()),
        ensures
            r.as_word() == bits_of(self.as_word(), range.off(), range.size()),
    ;

    /// The value of the bits covered by `range` when positions are counted
    /// from the most-significant bit: `extract` on the reflected range.
    fn extract_msb(&self, range: BitRange) -> (r: Self)
        requires
            range.wf(Self::width()),
        ensures
            r.as_word() == bits_of(
                self.as_word(),
                (Self::width() - range.end) as nat,
                range.size(),
            ),
    {
        let t = Self::width_exec();
        self.extract(range.reflect(t))
    }
}

/// Writing sub-fields of a word: least-significant-bit-first `insert`,
/// with `insert_msb` as the reflected variant.
///
/// Bits inside the range are fully replaced — two inserts into overlapping
/// ranges are last-write-wins — and bits outside it are untouched.
pub trait Pack: Unpack {
    fn insert(&mut self, value: Self, range: BitRange)
        requires
            range.wf(Self::width()),
        ensures
            final(self).as_word() == with_bits(
                old(self).as_word(),
                range.off(),
                range.size(),
                value.as_word(),
            ),
            final(self).as_word() % pow2(range.off()) == old(self).as_word() % pow2(range.off()),
            final(self).as_word() / pow2(range.off() + range.size()) == old(self).as_word() / pow2(
                range.off() + range.size(),
            ),
            bits_of(final(self).as_word(), range.off(), range.size()) == value.as_word() % pow2(
                range.size(),
            ),
    ;

    fn insert_msb(&mut self, value: Self, range: BitRange)
        requires
            range.wf(Self::width()),
        ensures
            final(self).as_word() == with_bits(
                old(self).as_word(),
                (Self::width() - range.end) as nat,
                range.size(),
                value.as_word(),
            ),
    {
        let t = Self::width_exec();
        self.insert(value, range.reflect(t))
    }
}

impl Unpack for u64 {
    open spec fn width() -> nat {
        64
    }

    open spec fn as_word(self) -> nat {
        self as nat
    }

    proof fn lemma_word_bound(self) {
        lemma2_to64();
    }

    fn width_exec() -> usize {
        64
    }

    fn extract(&self, range: BitRange) -> (r: u64) {
        proof {
            lemma2_to64();
        }
        extract_word(*self, range, 64)
    }
}

impl Pack for u64 {
    fn insert(&mut self, value: u64, range: BitRange) {
        proof {
            lemma2_to64();
        }
        *self = insert_word(*self, value, range, 64);
        proof {
            crate::bits::lemma_with_bits_parts(
                (*old(self)) as nat,
                range.off(),
                range.size(),
                value as nat,
            );
        }
    }
}

impl Unpack for u32 {
    open spec fn width() -> nat {
        32
    }

    open spec fn as_word(self) -> nat {
        self as nat
    }

    proof fn lemma_word_bound(self) {
        lemma2_to64();
    }

    fn width_exec() -> usize {
        32
    }

    fn extract(&self, range: BitRange) -> (r: u32) {
        proof {
            lemma2_to64();
        }
        let w = extract_word(*self as u64, range, 32);
        proof {
            lemma_pow2_increases(range.size(), 32);
        }
        w as u32
    }
}

impl Pack for u32 {
    fn insert(&mut self, value: u32, range: BitRange) {
        proof {
            lemma2_to64();
        }
        let w = insert_word(*self as u64, value as u64, range, 32);
        *self = w as u32;
        proof {
            crate::bits::lemma_with_bits_parts(
                (*old(self)) as nat,
                range.off(),
                range.size(),
                value as nat,
            );
        }
    }
}

impl Unpack for u16 {
    open spec fn width() -> nat {
        16
    }

    open spec fn as_word(self) -> nat {
        self as nat
    }

    proof fn lemma_word_bound(self) {
        lemma2_to64();
    }

    fn width_exec() -> usize {
        16
    }

    fn extract(&self, range: BitRange) -> (r: u16) {
        proof {
            lemma2_to64();
        }
        let w = extract_word(*self as u64, range, 16);
        proof {
            lemma_pow2_increases(range.size(), 16);
        }
        w as u16
    }
}

impl Pack for u16 {
    fn insert(&mut self, value: u16, range: BitRange) {
        proof {
            lemma2_to64();
        }
        let w = insert_word(*self as u64, value as u64, range, 16);
        *self = w as u16;
        proof {
            crate::bits::lemma_with_bits_parts(
                (*old(self)) as nat,
                range.off(),
                range.size(),
                value as nat,
            );
        }
    }
}

impl Unpack for u8 {
    open spec fn width() -> nat {
        8
    }

    open spec fn as_word(self) -> nat {
        self as nat
    }

    proof fn lemma_word_bound(self) {
        lemma2_to64();
    }

    fn width_exec() -> usize {
        8
    }

    fn extract(&self, range: BitRange) -> (r: u8) {
        proof {
            lemma2_to64();
        }
        let w = extract_word(*self as u64, range, 8);
        proof {
            lemma_pow2_increases(range.size(), 8);
        }
        w as u8
    }
}

impl Pack for u8 {
    fn insert(&mut self, value: u8, range: BitRange) {
        proof {
            lemma2_to64();
        }
        let w = insert_word(*self as u64, value as u64, range, 8);
        *self = w as u8;
        proof {
            crate::bits::lemma_with_bits_parts(
                (*old(self)) as nat,
                range.off(),
                range.size(),
                value as nat,
            );
        }
    }
}

impl Unpack for usize {
    open spec fn width() -> nat {
        usize::BITS as nat
    }

    open spec fn as_word(self) -> nat {
        self as nat
    }

    proof fn lemma_word_bound(self) {
        unsigned_int_max_values();
    }

    fn width_exec() -> usize {
        usize::BITS as usize
    }

    fn extract(&self, range: BitRange) -> (r: usize) {
        proof {
            unsigned_int_max_values();
        }
        let w = extract_word(*self as u64, range, usize::BITS as usize);
        proof {
            lemma_pow2_increases(range.size(), usize::BITS as nat);
        }
        w as usize
    }
}

impl Pack for usize {
    fn insert(&mut self, value: usize, range: BitRange) {
        proof {
            unsigned_int_max_values();
        }
        let w = insert_word(*self as u64, value as u64, range, usize::BITS as usize);
        *self = w as usize;
        proof {
            crate::bits::lemma_with_bits_parts(
                (*old(self)) as nat,
                range.off(),
                range.size(),
                value as nat,
            );
        }
    }
}

/// Mask boundary law: extracting a range that reaches the top bit of the
/// word from the all-ones word yields the all-ones pattern of the range's
/// size — the full-width mask neither overflows nor wraps.
pub proof fn lemma_mask_boundary(width: nat, start: nat)
    requires
        1 <= start <= width,
    ensures
        bits_of((pow2(width) - 1) as nat, (start - 1) as nat, (width - start + 1) as nat) == pow2(
            (width - start + 1) as nat,
        ) - 1,
{
    let off = (start - 1) as nat;
    let len = (width - start + 1) as nat;
    crate::bits::lemma_all_ones_shift(width, off);
    lemma_pow2_pos(len);
    lemma_pow2_pos(width);
    lemma_small_mod((pow2(len) - 1) as nat, pow2(len));
}

/// Bit-order symmetry law: reading a range most-significant-bit-first is
/// reading the reflected range least-significant-bit-first.
pub proof fn lemma_bit_order_symmetry(word: nat, range: BitRange, width: nat)
    requires
        width <= 64,
        range.wf(width),
    ensures
        bits_of(word, (width - range.end) as nat, range.size()) == bits_of(
            word,
            range.reflect_spec(width).off(),
            range.reflect_spec(width).size(),
        ),
{
}

} // verus!
