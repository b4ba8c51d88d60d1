//! Arithmetic model of bit fields.
//!
//! A word is modelled as a natural number. The `len`-bit field that starts
//! `off` bits above the least-significant end has the value
//! `(w / 2^off) % 2^len`; replacing that field leaves the quotient by
//! `2^(off + len)` and the remainder by `2^off` untouched. All bit-level
//! reasoning in the crate reduces to these two spec functions and the
//! lemmas below.

use vstd::arithmetic::div_mod::{
    lemma_div_denominator, lemma_div_is_ordered, lemma_fundamental_div_mod,
    lemma_fundamental_div_mod_converse, lemma_mod_breakdown, lemma_mod_division_less_than_divisor,
    lemma_mod_mod, lemma_small_mod,
};

use vstd::arithmetic::power2::{
    lemma2_to64, lemma_pow2_adds, lemma_pow2_pos, lemma_pow2_strictly_increases, pow2,
};
use vstd::prelude::*;

verus! {

/// Value of the `len`-bit field of `w` whose lowest bit sits `off` bits
/// above the least-significant end of the word.
pub open spec fn bits_of(w: nat, off: nat, len: nat) -> nat {
    (w / pow2(off)) % pow2(len)
}

/// `w` with the `len`-bit field at offset `off` replaced by the low `len`
/// bits of `v`; every bit outside the field keeps its value.
pub open spec fn with_bits(w: nat, off: nat, len: nat, v: nat) -> nat {
    (w / pow2(off + len)) * pow2(off + len) + (v % pow2(len)) * pow2(off) + w % pow2(off)
}

/// Bitwise or of two field values, both of which fit in a 64-bit machine word.
pub open spec fn or64(a: nat, b: nat) -> nat
    recommends
        a < pow2(64),
        b < pow2(64),
{
    ((a as u64) | (b as u64)) as nat
}

/// Monotonicity of `pow2`.
pub proof fn lemma_pow2_increases(e1: nat, e2: nat)
    requires
        e1 <= e2,
    ensures
        pow2(e1) <= pow2(e2),
{
    if e1 < e2 {
        lemma_pow2_strictly_increases(e1, e2);
    }
}

/// A field value always fits in its declared length.
pub proof fn lemma_bits_of_bound(w: nat, off: nat, len: nat)
    ensures
        bits_of(w, off, len) < pow2(len),
{
    lemma_pow2_pos(off);
    lemma_pow2_pos(len);
    lemma_mod_division_less_than_divisor((w / pow2(off)) as int, pow2(len) as int);
}

/// Masking to the low `off + len` bits first does not change a field read:
/// `(w % 2^(off+len)) / 2^off == (w / 2^off) % 2^len`.
pub proof fn lemma_mod_div_shift(w: nat, off: nat, len: nat)
    ensures
        (w % pow2(off + len)) / pow2(off) == bits_of(w, off, len),
{
    let po = pow2(off);
    let pl = pow2(len);
    lemma_pow2_pos(off);
    lemma_pow2_pos(len);
    lemma_pow2_adds(off, len);
    lemma_mod_breakdown(w as int, po as int, pl as int);
    let q = (w / po) % pl;
    let r = w % po;
    lemma_mod_division_less_than_divisor(w as int, po as int);
    assert(w % pow2(off + len) == q * po + r) by (nonlinear_arith)
        requires
            w % pow2(off + len) == po * ((w / po) % pl) + w % po,
            q == (w / po) % pl,
            r == w % po,
    ;
    lemma_fundamental_div_mod_converse((w % pow2(off + len)) as int, po as int, q as int, r as int);
}

/// An all-ones word shifted down stays all ones in the remaining bits:
/// `(2^a - 1) / 2^b == 2^(a-b) - 1`.
pub proof fn lemma_all_ones_shift(a: nat, b: nat)
    requires
        b <= a,
    ensures
        ((pow2(a) - 1) as nat) / pow2(b) == pow2((a - b) as nat) - 1,
{
    let pb = pow2(b);
    let pk = pow2((a - b) as nat);
    lemma_pow2_pos(b);
    lemma_pow2_pos((a - b) as nat);
    lemma_pow2_adds(b, (a - b) as nat);
    assert(pow2(a) - 1 == (pk - 1) * pb + (pb - 1)) by (nonlinear_arith)
        requires
            pow2(a) == pb * pk,
    ;
    lemma_fundamental_div_mod_converse(
        (pow2(a) - 1) as int,
        pb as int,
        (pk - 1) as int,
        (pb - 1) as int,
    );
}

/// A word splits into the part above a field, the field itself, and the
/// part below it.
pub proof fn lemma_decompose(w: nat, off: nat, len: nat)
    ensures
        w == (w / pow2(off + len)) * pow2(off + len) + bits_of(w, off, len) * pow2(off) + w % pow2(
            off,
        ),
{
    let po = pow2(off);
    let pl = pow2(len);
    let pe = pow2(off + len);
    lemma_pow2_pos(off);
    lemma_pow2_pos(len);
    lemma_pow2_pos(off + len);
    lemma_pow2_adds(off, len);
    lemma_fundamental_div_mod(w as int, pe as int);
    lemma_mod_breakdown(w as int, po as int, pl as int);
    assert(w % pe == bits_of(w, off, len) * po + w % po) by (nonlinear_arith)
        requires
            w % pe == po * ((w / po) % pl) + w % po,
            bits_of(w, off, len) == (w / po) % pl,
    ;
}

/// Replacing a field changes nothing below it, nothing above it, and sets
/// the field itself to the low `len` bits of the new value.
pub proof fn lemma_with_bits_parts(w: nat, off: nat, len: nat, v: nat)
    ensures
        with_bits(w, off, len, v) % pow2(off) == w % pow2(off),
        with_bits(w, off, len, v) / pow2(off + len) == w / pow2(off + len),
        with_bits(w, off, len, v) % pow2(off + len) == (v % pow2(len)) * pow2(off) + w % pow2(off),
        bits_of(with_bits(w, off, len, v), off, len) == v % pow2(len),
{
    let po = pow2(off);
    let pl = pow2(len);
    let pe = pow2(off + len);
    let q = w / pe;
    let vv = v % pl;
    let r = w % po;
    let n = with_bits(w, off, len, v);
    lemma_pow2_pos(off);
    lemma_pow2_pos(len);
    lemma_pow2_adds(off, len);
    lemma_mod_division_less_than_divisor(v as int, pl as int);
    lemma_mod_division_less_than_divisor(w as int, po as int);
    let inner = vv * po + r;
    assert(vv * po + r < pe) by (nonlinear_arith)
        requires
            vv < pl,
            r < po,
            pe == po * pl,
            0 < po,
            0 < pl,
    ;
    // The quotient and remainder by 2^(off+len).
    assert(n == q * pe + inner);
    lemma_fundamental_div_mod_converse(n as int, pe as int, q as int, inner as int);
    // The remainder by 2^off.
    assert(n == (q * pl + vv) * po + r) by (nonlinear_arith)
        requires
            n == q * pe + vv * po + r,
            pe == po * pl,
    ;
    lemma_fundamental_div_mod_converse(n as int, po as int, (q * pl + vv) as int, r as int);
    // The field itself.
    lemma_mod_div_shift(n, off, len);
    lemma_fundamental_div_mod_converse(inner as int, po as int, vv as int, r as int);
}

/// Replacing a field inside the width of a word keeps the word inside
/// that width.
pub proof fn lemma_with_bits_bound(w: nat, off: nat, len: nat, v: nat, width: nat)
    requires
        off + len <= width,
        w < pow2(width),
    ensures
        with_bits(w, off, len, v) < pow2(width),
{
    let pe = pow2(off + len);
    let pk = pow2((width - off - len) as nat);
    let n = with_bits(w, off, len, v);
    lemma_pow2_pos(off + len);
    lemma_pow2_pos((width - off - len) as nat);
    lemma_pow2_adds(off + len, (width - off - len) as nat);
    lemma_with_bits_parts(w, off, len, v);
    assert((pe * pk - 1) as int / pe as int == pk - 1) by {
        assert(pe as int * pk as int - 1 == (pk as int - 1) * pe as int + (pe as int - 1))
            by (nonlinear_arith);
        lemma_fundamental_div_mod_converse(
            pe as int * pk as int - 1,
            pe as int,
            pk as int - 1,
            pe as int - 1,
        );
    }
    lemma_div_is_ordered(w as int, pe as int * pk as int - 1, pe as int);
    lemma_fundamental_div_mod(n as int, pe as int);
    lemma_mod_division_less_than_divisor(n as int, pe as int);
    assert(n < pe * pk) by (nonlinear_arith)
        requires
            n == (n / pe) * pe + n % pe,
            n / pe <= pk - 1,
            n % pe < pe,
            0 < pe,
            0 < pk,
    ;
}

/// Reading a double-length field is reading the two halves:
/// the low half sits in the low `l1` bits, the high half above it.
pub proof fn lemma_bits_of_concat(w: nat, off: nat, l1: nat, l2: nat)
    ensures
        bits_of(w, off, l1 + l2) == bits_of(w, off, l1) + bits_of(w, off + l1, l2) * pow2(l1),
{
    let po = pow2(off);
    let p1 = pow2(l1);
    let p2 = pow2(l2);
    let u = w / po;
    lemma_pow2_pos(off);
    lemma_pow2_pos(l1);
    lemma_pow2_pos(l2);
    lemma_pow2_adds(l1, l2);
    lemma_pow2_adds(off, l1);
    lemma_mod_breakdown(u as int, p1 as int, p2 as int);
    lemma_div_denominator(w as int, po as int, p1 as int);
    assert(bits_of(w, off, l1 + l2) == bits_of(w, off, l1) + ((u / p1) % p2) * p1)
        by (nonlinear_arith)
        requires
            u % (p1 * p2) == p1 * ((u / p1) % p2) + u % p1,
            bits_of(w, off, l1 + l2) == u % (p1 * p2),
            bits_of(w, off, l1) == u % p1,
    ;
}

/// Writing two adjacent fields one after the other is writing a single
/// combined field.
pub proof fn lemma_with_bits_compose(w: nat, off: nat, l1: nat, l2: nat, v1: nat, v2: nat)
    requires
        v1 < pow2(l1),
    ensures
        with_bits(with_bits(w, off, l1, v1), off + l1, l2, v2) == with_bits(
            w,
            off,
            l1 + l2,
            v1 + (v2 % pow2(l2)) * pow2(l1),
        ),
{
    let po = pow2(off);
    let p1 = pow2(l1);
    let p2 = pow2(l2);
    let pl = pow2(l1 + l2);
    let pe1 = pow2(off + l1);
    let pe = pow2(off + l1 + l2);
    let v2t = v2 % p2;
    let w1 = with_bits(w, off, l1, v1);
    lemma_pow2_pos(off);
    lemma_pow2_pos(l1);
    lemma_pow2_pos(l2);
    lemma_pow2_pos(off + l1);
    lemma_pow2_pos(off + l1 + l2);
    lemma_pow2_pos(l1 + l2);
    lemma_pow2_adds(off, l1);
    lemma_pow2_adds(l1, l2);
    lemma_pow2_adds(off + l1, l2);
    lemma_mod_division_less_than_divisor(v2 as int, p2 as int);
    lemma_small_mod(v1, p1);
    lemma_with_bits_parts(w, off, l1, v1);
    // The combined new value fits in l1 + l2 bits.
    assert(v1 + v2t * p1 < pl) by (nonlinear_arith)
        requires
            v1 < p1,
            v2t < p2,
            pl == p1 * p2,
            0 < p1,
            0 < p2,
    ;
    lemma_small_mod((v1 + v2t * p1) as nat, pl);
    // Both sides share the quotient by 2^(off+l1+l2).
    lemma_div_denominator(w1 as int, pe1 as int, p2 as int);
    lemma_div_denominator(w as int, pe1 as int, p2 as int);
    assert(w1 / pe == w / pe);
    // Linear arithmetic finishes once the products are aligned.
    assert((v1 + v2t * p1) * po == v1 * po + v2t * pe1) by (nonlinear_arith)
        requires
            pe1 == po * p1,
    ;
}

/// Writing two adjacent fields upper-first is also writing a single
/// combined field.
pub proof fn lemma_with_bits_compose_down(w: nat, off: nat, l1: nat, l2: nat, v1: nat, v2: nat)
    requires
        v1 < pow2(l1),
    ensures
        with_bits(with_bits(w, off + l1, l2, v2), off, l1, v1) == with_bits(
            w,
            off,
            l1 + l2,
            v1 + (v2 % pow2(l2)) * pow2(l1),
        ),
{
    let po = pow2(off);
    let p1 = pow2(l1);
    let p2 = pow2(l2);
    let pl = pow2(l1 + l2);
    let pe1 = pow2(off + l1);
    let pe = pow2(off + l1 + l2);
    let v2t = v2 % p2;
    let w2 = with_bits(w, off + l1, l2, v2);
    let q = w / pe;
    lemma_pow2_pos(off);
    lemma_pow2_pos(l1);
    lemma_pow2_pos(l2);
    lemma_pow2_pos(off + l1);
    lemma_pow2_pos(off + l1 + l2);
    lemma_pow2_pos(l1 + l2);
    lemma_pow2_adds(off, l1);
    lemma_pow2_adds(l1, l2);
    lemma_pow2_adds(off + l1, l2);
    lemma_mod_division_less_than_divisor(v2 as int, p2 as int);
    lemma_mod_division_less_than_divisor(w as int, pe1 as int);
    lemma_small_mod(v1, p1);
    // The upper write shares its quotient by 2^(off+l1) and the bits
    // below 2^(off+l1) with `w`.
    assert(w2 == (q * p2 + v2t) * pe1 + (w % pe1)) by (nonlinear_arith)
        requires
            w2 == q * pe + v2t * pe1 + w % pe1,
            pe == pe1 * p2,
    ;
    lemma_fundamental_div_mod_converse(
        w2 as int,
        pe1 as int,
        (q * p2 + v2t) as int,
        (w % pe1) as int,
    );
    lemma_mod_mod(w2 as int, po as int, p1 as int);
    lemma_mod_mod(w as int, po as int, p1 as int);
    // The combined new value fits in l1 + l2 bits.
    assert(v1 + v2t * p1 < pl) by (nonlinear_arith)
        requires
            v1 < p1,
            v2t < p2,
            pl == p1 * p2,
            0 < p1,
            0 < p2,
    ;
    lemma_small_mod((v1 + v2t * p1) as nat, pl);
    // Linear arithmetic finishes once the products are aligned.
    assert((q * p2 + v2t) * pe1 == q * pe + v2t * pe1) by (nonlinear_arith)
        requires
            pe == pe1 * p2,
    ;
    assert((v1 + v2t * p1) * po == v1 * po + v2t * pe1) by (nonlinear_arith)
        requires
            pe1 == po * p1,
    ;
}

/// A zero-length write is a no-op.
pub proof fn lemma_with_bits_empty(w: nat, off: nat, v: nat)
    ensures
        with_bits(w, off, 0, v) == w,
{
    lemma2_to64();
    lemma_pow2_pos(off);
    assert(pow2(0) == 1);
    assert(v % 1nat == 0) by (nonlinear_arith);
    assert(off + 0 == off);
    lemma_fundamental_div_mod(w as int, pow2(off) as int);
    assert(with_bits(w, off, 0, v) == (w / pow2(off)) * pow2(off) + 0 * pow2(off) + w % pow2(off));
}

/// Oring into an all-zero field hands the value through.
pub proof fn lemma_or64_zero(b: nat)
    requires
        b < pow2(64),
    ensures
        or64(0, b) == b,
{
    lemma2_to64();
    let bb = b as u64;
    assert(0u64 | bb == bb) by (bit_vector);
}

/// Every field of the zero word is zero.
pub proof fn lemma_bits_of_zero(off: nat, len: nat)
    ensures
        bits_of(0, off, len) == 0,
{
    lemma_pow2_pos(off);
    lemma_pow2_pos(len);
    assert(0nat / pow2(off) == 0) by (nonlinear_arith)
        requires
            0 < pow2(off),
    ;
    lemma_small_mod(0, pow2(len));
}

} // verus!
