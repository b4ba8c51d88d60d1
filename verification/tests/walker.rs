use m6binpack::walker::coerce;
use m6binpack::walker::layout_fits;
use m6binpack::walker::pack_fits;
use m6binpack::walker::pack;
use m6binpack::walker::pack_add;
use m6binpack::walker::pack_msb;
use m6binpack::walker::unpack;
use m6binpack::walker::unpack_msb;
use m6binpack::walker::FieldSpec;
use m6binpack::walker::FieldType;
use m6binpack::walker::PackField;
use m6binpack::walker::Value;
use m6binpack::walker::Word;

fn raw_of(v: &Value) -> u64 {
    match v {
        Value::Bool(b) => {
            if *b {
                1
            } else {
                0
            }
        }
        Value::U8(x) => *x as u64,
        Value::U16(x) => *x as u64,
        Value::U32(x) => *x as u64,
        Value::U64(x) => *x,
        Value::U128(x) => *x as u64,
        Value::Usize(x) => *x as u64,
    }
}

#[test]
fn unpack_cause_register_64() {
    // 64-bit word, least-significant-bit-first:
    // <cause_num: usize: 63><is_async: bool: 1>.
    let cause = Word::from_u64(0x8000_0000_0000_000A);
    let layout = vec![
        FieldSpec::named("cause_num".to_string(), FieldType::Usize, 63),
        FieldSpec::named("is_async".to_string(), FieldType::Bool, 1),
    ];
    let bs = unpack(&cause, &layout);
    assert_eq!(bs.len(), 2);
    assert_eq!(bs[0].name, "cause_num");
    assert_eq!(bs[0].value, Value::Usize(0x0A));
    assert_eq!(bs[1].name, "is_async");
    assert_eq!(bs[1].value, Value::Bool(true));
}

#[test]
fn unpack_skip_field_32() {
    // 32-bit word: <B0: usize: 12><_: 12><B1: u8: 8>; the skipped middle
    // field produces no binding but advances the offset by 12.
    let cause = Word::from_u32(0x8000_000A);
    let layout = vec![
        FieldSpec::named("B0".to_string(), FieldType::Usize, 12),
        FieldSpec::skip(12),
        FieldSpec::named("B1".to_string(), FieldType::U8, 8),
    ];
    let bs = unpack(&cause, &layout);
    assert_eq!(bs.len(), 2);
    assert_eq!(bs[0].name, "B0");
    assert_eq!(bs[0].value, Value::Usize(0x0A));
    assert_eq!(bs[1].name, "B1");
    assert_eq!(bs[1].value, Value::U8(0x80));
}

#[test]
fn pack_cause_register_32() {
    // Initializing pack: cause0: u32 = <cause_num: 31><is_async: 1> with
    // cause_num = 0x8000_000A (truncated to 31 bits) and is_async = 1.
    let fields = vec![PackField::new(0x8000_000A, 31), PackField::new(1, 1)];
    let mut cause0 = pack(32, &fields);
    assert_eq!(cause0.bits, 0x8000_000A);
    assert_eq!(cause0.width, 32);

    // Additive pack: cause0 |= <4: 12><0: 12><0x02: 8>.
    let more = vec![
        PackField::new(4, 12),
        PackField::new(0, 12),
        PackField::new(0x02, 8),
    ];
    pack_add(&mut cause0, &more);
    assert_eq!(cause0.bits, 0x8200_000E);
}

#[test]
fn pack_then_unpack_round_trip() {
    // Any all-named layout whose types fit: unpack then pack restores the
    // covered bits.
    let word = Word::from_u64(0x8000_0000_0000_000A);
    let layout = vec![
        FieldSpec::named("low".to_string(), FieldType::U32, 20),
        FieldSpec::named("mid".to_string(), FieldType::U32, 23),
        FieldSpec::named("top".to_string(), FieldType::U32, 21),
    ];
    let bs = unpack(&word, &layout);
    let fields: Vec<PackField> = vec![
        PackField::new(raw_of(&bs[0].value), 20),
        PackField::new(raw_of(&bs[1].value), 23),
        PackField::new(raw_of(&bs[2].value), 21),
    ];
    let rebuilt = pack(64, &fields);
    assert_eq!(rebuilt.bits, word.bits);

    // A partial layout restores the bits it covers and zeroes the rest.
    let partial = vec![
        FieldSpec::named("a".to_string(), FieldType::U8, 4),
        FieldSpec::named("b".to_string(), FieldType::U8, 8),
    ];
    let pb = unpack(&word, &partial);
    let pf = vec![
        PackField::new(raw_of(&pb[0].value), 4),
        PackField::new(raw_of(&pb[1].value), 8),
    ];
    let low12 = pack(64, &pf);
    assert_eq!(low12.bits, word.bits & 0xFFF);
}

#[test]
fn unpack_msb_reads_from_the_top() {
    let w = Word::from_u16(0xABCD);
    let layout = vec![
        FieldSpec::named("hi".to_string(), FieldType::U8, 8),
        FieldSpec::named("lo".to_string(), FieldType::U8, 8),
    ];
    let bs = unpack_msb(&w, &layout);
    assert_eq!(bs[0].value, Value::U8(0xAB));
    assert_eq!(bs[1].value, Value::U8(0xCD));

    // The same layout read least-significant-bit-first is mirrored.
    let bs_lsb = unpack(&w, &layout);
    assert_eq!(bs_lsb[0].value, Value::U8(0xCD));
    assert_eq!(bs_lsb[1].value, Value::U8(0xAB));
}

#[test]
fn pack_msb_writes_from_the_top() {
    let fields = vec![PackField::new(0xAB, 8), PackField::new(0xCD, 8)];
    let w = pack_msb(16, &fields);
    assert_eq!(w.bits, 0xABCD);
}

#[test]
fn boolean_coercion_rule() {
    // Zero coerces to false, any nonzero value to true.
    assert_eq!(coerce(0, FieldType::Bool), Value::Bool(false));
    assert_eq!(coerce(1, FieldType::Bool), Value::Bool(true));
    assert_eq!(coerce(5, FieldType::Bool), Value::Bool(true));
    assert_eq!(coerce(u64::MAX, FieldType::Bool), Value::Bool(true));

    // Through the walker, for a bit length greater than one.
    let w = Word::from_u8(0b0000_0110);
    let layout = vec![
        FieldSpec::named("low3".to_string(), FieldType::Bool, 3),
        FieldSpec::named("rest".to_string(), FieldType::Bool, 5),
    ];
    let bs = unpack(&w, &layout);
    assert_eq!(bs[0].value, Value::Bool(true));
    assert_eq!(bs[1].value, Value::Bool(false));
}

#[test]
fn coercion_narrows_like_integer_casts() {
    // A 12-bit field declared u8 keeps the low 8 bits.
    let w = Word::from_u16(0x0ABC);
    let layout = vec![FieldSpec::named("n".to_string(), FieldType::U8, 12)];
    let bs = unpack(&w, &layout);
    assert_eq!(bs[0].value, Value::U8(0xBC));
}

#[test]
fn pack_truncates_each_value_to_its_length() {
    let fields = vec![PackField::new(0xFFF, 4), PackField::new(0x1, 4)];
    let w = pack(8, &fields);
    assert_eq!(w.bits, 0x1F);
}

#[test]
fn additive_pack_keeps_earlier_fields() {
    let mut w = Word::zeroed(16);
    pack_add(&mut w, &vec![PackField::new(0x0F, 8)]);
    assert_eq!(w.bits, 0x000F);
    pack_add(&mut w, &vec![PackField::new(0, 8), PackField::new(0xA0, 8)]);
    assert_eq!(w.bits, 0xA00F);
    // Oring over already-set bits keeps them set.
    pack_add(&mut w, &vec![PackField::new(0x30, 8)]);
    assert_eq!(w.bits, 0xA03F);
}

#[test]
fn word_extract_insert_on_odd_widths() {
    // The walker carries any width up to 64.
    let mut w = Word::zeroed(12);
    w.insert(0x5A, m6binpack::BitRange::new(3, 10));
    assert_eq!(w.bits, 0x5A << 2);
    assert_eq!(w.extract(m6binpack::BitRange::new(3, 10)), 0x5A);
    assert_eq!(w.extract_msb(m6binpack::BitRange::new(3, 4)), 0x1);
}

#[test]
fn empty_layouts_do_nothing() {
    let w = Word::from_u32(0x1234_5678);
    let bs = unpack(&w, &Vec::new());
    assert_eq!(bs.len(), 0);

    let mut p = Word::from_u32(0x1234_5678);
    pack_add(&mut p, &Vec::new());
    assert_eq!(p.bits, 0x1234_5678);
    let q = pack(32, &Vec::new());
    assert_eq!(q.bits, 0);
}

#[test]
fn width_one_word() {
    let w = Word::new(1, 1);
    let layout = vec![FieldSpec::named("flag".to_string(), FieldType::Bool, 1)];
    let bs = unpack(&w, &layout);
    assert_eq!(bs[0].value, Value::Bool(true));
    let bs_msb = unpack_msb(&w, &layout);
    assert_eq!(bs_msb[0].value, Value::Bool(true));
}

#[test]
fn wide_declared_type() {
    let w = Word::from_u64(0xFFFF_FFFF_FFFF_FFFF);
    let layout = vec![FieldSpec::named("all".to_string(), FieldType::U128, 64)];
    let bs = unpack(&w, &layout);
    assert_eq!(bs[0].value, Value::U128(0xFFFF_FFFF_FFFF_FFFF));
}

#[test]
fn msb_round_trip_restores_top_bits() {
    let word = Word::from_u32(0xDEAD_BEEF);
    let layout = vec![
        FieldSpec::named("x".to_string(), FieldType::U16, 12),
        FieldSpec::named("y".to_string(), FieldType::U8, 8),
    ];
    let bs = unpack_msb(&word, &layout);
    let fields = vec![
        PackField::new(raw_of(&bs[0].value), 12),
        PackField::new(raw_of(&bs[1].value), 8),
    ];
    let rebuilt = pack_msb(32, &fields);
    // The top 20 bits come back in place; the low 12 stay zero.
    assert_eq!(rebuilt.bits, word.bits & 0xFFFF_F000);
}

#[test]
fn boundary_checks() {
    let good = vec![
        FieldSpec::named("a".to_string(), FieldType::U8, 8),
        FieldSpec::skip(24),
    ];
    assert!(layout_fits(&good, 32));
    // One bit over the width is rejected.
    assert!(!layout_fits(&good, 31));
    // A zero-length field is rejected.
    let zero = vec![FieldSpec::named("z".to_string(), FieldType::U8, 0)];
    assert!(!layout_fits(&zero, 32));

    let fields = vec![PackField::new(1, 16), PackField::new(2, 16)];
    assert!(pack_fits(&fields, 32));
    assert!(!pack_fits(&fields, 16));
    assert!(!pack_fits(&vec![PackField::new(0, 0)], 16));
}
