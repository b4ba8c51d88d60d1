use m6binpack::BitRange;
use m6binpack::Pack;
use m6binpack::Unpack;

#[test]
fn test_extract_bits() {
    let test_num = 0x8000_0000_0000_000A_u64;

    let res0 = Unpack::extract(&test_num, BitRange::new(64, 64));
    let res1 = Unpack::extract(&test_num, BitRange::new(1, 12));

    assert_eq!(res0, 1);
    assert_eq!(res1, 10);
}

#[test]
fn extract_small_widths() {
    let b: u8 = 0b1010_0110;
    assert_eq!(b.extract(BitRange::new(1, 4)), 0b0110);
    assert_eq!(b.extract(BitRange::new(5, 8)), 0b1010);
    assert_eq!(b.extract(BitRange::new(8, 8)), 1);

    let h: u16 = 0xABCD;
    assert_eq!(h.extract(BitRange::new(1, 8)), 0xCD);
    assert_eq!(h.extract(BitRange::new(9, 16)), 0xAB);

    let w: u32 = 0x8000_000A;
    assert_eq!(w.extract(BitRange::new(1, 12)), 0x00A);
    assert_eq!(w.extract(BitRange::new(32, 32)), 1);

    let s: usize = 0x8000_000A;
    assert_eq!(s.extract(BitRange::new(1, 12)), 0x00A);
}

#[test]
fn extract_full_width_mask_boundary() {
    // Ranges that reach the top bit: the full-width mask must not wrap.
    let ones64 = u64::MAX;
    assert_eq!(ones64.extract(BitRange::new(13, 64)), u64::MAX >> 12);
    assert_eq!(ones64.extract(BitRange::new(1, 64)), u64::MAX);

    let ones8: u8 = 0xFF;
    assert_eq!(ones8.extract(BitRange::new(1, 8)), 0xFF);
    assert_eq!(ones8.extract(BitRange::new(3, 8)), 0x3F);

    let ones32: u32 = u32::MAX;
    assert_eq!(ones32.extract(BitRange::new(5, 32)), u32::MAX >> 4);
}

#[test]
fn extract_msb_is_reflected_extract() {
    let w: u32 = 0xDEAD_BEEF;
    // [s, e] from the top equals [33 - e, 33 - s] from the bottom.
    assert_eq!(w.extract_msb(BitRange::new(1, 8)), w.extract(BitRange::new(25, 32)));
    assert_eq!(w.extract_msb(BitRange::new(9, 16)), w.extract(BitRange::new(17, 24)));
    assert_eq!(w.extract_msb(BitRange::new(1, 8)), 0xDE);
    assert_eq!(w.extract_msb(BitRange::new(25, 32)), 0xEF);

    let n: u64 = 0x8000_0000_0000_000A;
    assert_eq!(n.extract_msb(BitRange::new(1, 1)), 1);
    assert_eq!(n.extract_msb(BitRange::new(53, 64)), 0x00A);
}

#[test]
fn insert_replaces_range() {
    let mut w: u32 = 0;
    w.insert(0xAB, BitRange::new(1, 8));
    assert_eq!(w, 0xAB);
    w.insert(0xCD, BitRange::new(9, 16));
    assert_eq!(w, 0xCDAB);
    // Last write wins on an overlapping range: no or of stale bits.
    w.insert(0x12, BitRange::new(1, 8));
    assert_eq!(w, 0xCD12);
}

#[test]
fn insert_leaves_outside_bits_unchanged() {
    let mut w: u32 = 0xFFFF_FFFF;
    w.insert(0, BitRange::new(9, 16));
    assert_eq!(w, 0xFFFF_00FF);

    let mut v: u64 = 0x1234_5678_9ABC_DEF0;
    let before = v;
    v.insert(0x5, BitRange::new(17, 20));
    // Bits below 17 and above 20 are untouched.
    assert_eq!(v & 0xFFFF, before & 0xFFFF);
    assert_eq!(v >> 20, before >> 20);
    assert_eq!((v >> 16) & 0xF, 0x5);
}

#[test]
fn insert_full_width() {
    let mut w: u64 = 0x0123_4567_89AB_CDEF;
    w.insert(u64::MAX, BitRange::new(1, 64));
    assert_eq!(w, u64::MAX);

    let mut b: u8 = 0xF0;
    b.insert(0x0F, BitRange::new(1, 8));
    assert_eq!(b, 0x0F);
}

#[test]
fn insert_truncates_value_to_range() {
    let mut w: u32 = 0;
    // Only the low 4 bits of the value land in a 4-bit range.
    w.insert(0xFF, BitRange::new(5, 8));
    assert_eq!(w, 0xF0);
    w.insert(0x1F2, BitRange::new(1, 4));
    assert_eq!(w, 0xF2);
}

#[test]
fn insert_msb_is_reflected_insert() {
    let mut a: u16 = 0;
    a.insert_msb(0xAB, BitRange::new(1, 8));
    let mut b: u16 = 0;
    b.insert(0xAB, BitRange::new(9, 16));
    assert_eq!(a, b);
    assert_eq!(a, 0xAB00);

    let mut c: u16 = 0;
    c.insert_msb(0xAB, BitRange::new(1, 8));
    c.insert_msb(0xCD, BitRange::new(9, 16));
    assert_eq!(c, 0xABCD);
}

#[test]
fn extract_insert_round_trip_on_words() {
    let w: u32 = 0xCAFE_BABE;
    let low = w.extract(BitRange::new(1, 16));
    let high = w.extract(BitRange::new(17, 32));
    let mut r: u32 = 0;
    r.insert(low, BitRange::new(1, 16));
    r.insert(high, BitRange::new(17, 32));
    assert_eq!(r, w);
}

#[test]
fn extract_and_insert_u128() {
    let w: u128 = 0x8000_0000_0000_0000_0000_0000_0000_000A;
    assert_eq!(w.extract(BitRange::new(128, 128)), 1);
    assert_eq!(w.extract(BitRange::new(1, 12)), 10);
    assert_eq!(w.extract_msb(BitRange::new(1, 1)), 1);
    assert_eq!(u128::MAX.extract(BitRange::new(13, 128)), u128::MAX >> 12);

    let mut v: u128 = 0;
    v.insert(10, BitRange::new(1, 127));
    v.insert(1, BitRange::new(128, 128));
    assert_eq!(v, (1u128 << 127) | 10);
    // Replacement, not an or, inside the range.
    v.insert(4, BitRange::new(1, 12));
    assert_eq!(v, (1u128 << 127) | 4);
    // Bits outside the range survive a full-width walk of inserts.
    v.insert_msb(0xFF, BitRange::new(1, 8));
    assert_eq!(v >> 120, 0xFF);
    assert_eq!(v & 0xFFF, 4);
}

#[test]
fn insert_usize() {
    let mut s: usize = 0;
    s.insert(0xAB, BitRange::new(1, 8));
    s.insert(0xCD, BitRange::new(9, 16));
    assert_eq!(s, 0xCDAB);
    assert_eq!(s.extract(BitRange::new(9, 16)), 0xCD);
}
