//! The layout walker: a runtime interpreter over field-layout descriptions.
//!
//! A layout is an ordered sequence of field declarations. Walking a layout
//! accumulates a running bit offset, starting at zero; the field declared
//! first covers the lowest-numbered bit positions. Unpacking reads each
//! field out of a target word and coerces it to its declared type; packing
//! ors field values into a target word, either freshly zero-initialized
//! (initializing mode) or already holding earlier fields (additive mode).

use crate::bits::{bits_of, lemma_bits_of_bound, or64, with_bits};
use crate::codec::{extract_word, insert_word, mask_for};
use crate::range::BitRange;
use vstd::arithmetic::power2::{lemma2_to64, lemma_pow2_pos, pow2};
use vstd::layout::unsigned_int_max_values;
use vstd::prelude::*;

verus! {

/// Declared scalar type of a field: boolean, or an unsigned integer of a
/// standard width.
#[derive(Clone, Copy, PartialEq, Eq, Structural, Debug)]
pub enum FieldType {
    Bool,
    U8,
    U16,
    U32,
    U64,
    U128,
    Usize,
}

/// A coerced field value, tagged with its declared type.
#[derive(Clone, Copy, PartialEq, Eq, Structural, Debug)]
pub enum Value {
    Bool(bool),
    U8(u8),
    U16(u16),
    U32(u32),
    U64(u64),
    U128(u128),
    Usize(usize),
}

/// One field declaration: an optional name (`None` skips the bits without
/// producing a binding), the declared type, and the bit length.
pub struct FieldSpec {
    pub name: Option<String>,
    pub ty: FieldType,
    pub len: usize,
}

/// Abstract view of a field declaration.
pub struct FieldSpecView {
    pub name: Option<Seq<char>>,
    pub ty: FieldType,
    pub len: nat,
}

impl View for FieldSpec {
    type V = FieldSpecView;

    open spec fn view(&self) -> FieldSpecView {
        FieldSpecView {
            name: match self.name {
                Some(s) => Some(s@),
                None => None,
            },
            ty: self.ty,
            len: self.len as nat,
        }
    }
}

impl FieldSpec {
    /// A named field.
    pub fn named(name: String, ty: FieldType, len: usize) -> (f: FieldSpec)
        ensures
            f@ == (FieldSpecView { name: Some(name@), ty, len: len as nat }),
    {
        FieldSpec { name: Some(name), ty, len }
    }

    /// An anonymous field: advances the walk without producing a binding.
    pub fn skip(len: usize) -> (f: FieldSpec)
        ensures
            f@ == (FieldSpecView { name: None, ty: FieldType::U64, len: len as nat }),
    {
        FieldSpec { name: None, ty: FieldType::U64, len }
    }
}

/// A named, coerced field value produced by an unpack walk.
pub struct Binding {
    pub name: String,
    pub value: Value,
}

/// Abstract view of a binding.
pub struct BindingView {
    pub name: Seq<char>,
    pub value: Value,
}

impl View for Binding {
    type V = BindingView;

    open spec fn view(&self) -> BindingView {
        BindingView { name: self.name@, value: self.value }
    }
}

/// The value `raw` cast to the declared type: a boolean field is true
/// exactly when the raw value is nonzero; an unsigned field narrows by
/// truncation, as fixed-width integer casts do.
pub open spec fn coerce_spec(raw: u64, ty: FieldType) -> Value {
    match ty {
        FieldType::Bool => Value::Bool(raw != 0),
        FieldType::U8 => Value::U8(raw as u8),
        FieldType::U16 => Value::U16(raw as u16),
        FieldType::U32 => Value::U32(raw as u32),
        FieldType::U64 => Value::U64(raw),
        FieldType::U128 => Value::U128(raw as u128),
        FieldType::Usize => Value::Usize(raw as usize),
    }
}

/// Coerces a raw extracted value to its declared type. The coercion rule
/// is the same in the unpack and the pack direction.
pub fn coerce(raw: u64, ty: FieldType) -> (v: Value)
    ensures
        v == coerce_spec(raw, ty),
{
    match ty {
        FieldType::Bool => Value::Bool(raw != 0),
        FieldType::U8 => Value::U8(#[verifier::truncate] (raw as u8)),
        FieldType::U16 => Value::U16(#[verifier::truncate] (raw as u16)),
        FieldType::U32 => Value::U32(#[verifier::truncate] (raw as u32)),
        FieldType::U64 => Value::U64(raw),
        FieldType::U128 => Value::U128(raw as u128),
        FieldType::Usize => Value::Usize(#[verifier::truncate] (raw as usize)),
    }
}

/// A field value back as a raw number: the inverse of coercion on values
/// that fit their declared type.
pub open spec fn uncoerce(v: Value) -> nat {
    match v {
        Value::Bool(b) => if b {
            1
        } else {
            0
        },
        Value::U8(x) => x as nat,
        Value::U16(x) => x as nat,
        Value::U32(x) => x as nat,
        Value::U64(x) => x as nat,
        Value::U128(x) => x as nat,
        Value::Usize(x) => x as nat,
    }
}

/// A word of a chosen bit width, up to 64 bits: the target of one layout
/// walk. The walker carries each width in a 64-bit slot; the invariant
/// keeps the value inside the declared width.
#[derive(Clone, Copy, PartialEq, Eq, Structural, Debug)]
pub struct Word {
    pub bits: u64,
    pub width: usize,
}

impl Word {
    /// The word invariant: a known width, and no bits above it.
    pub open spec fn wf(self) -> bool {
        1 <= self.width <= 64 && (self.bits as nat) < pow2(self.width as nat)
    }

    pub fn new(bits: u64, width: usize) -> (w: Word)
        requires
            1 <= width <= 64,
            (bits as nat) < pow2(width as nat),
        ensures
            w.bits == bits,
            w.width == width,
            w.wf(),
    {
        Word { bits, width }
    }

    /// A zero-initialized word, the starting point of an initializing pack.
    pub fn zeroed(width: usize) -> (w: Word)
        requires
            1 <= width <= 64,
        ensures
            w.bits == 0,
            w.width == width,
            w.wf(),
    {
        proof {
            lemma_pow2_pos(width as nat);
        }
        Word { bits: 0, width }
    }

    pub fn from_u8(x: u8) -> (w: Word)
        ensures
            w.bits == x,
            w.width == 8,
            w.wf(),
    {
        proof {
            lemma2_to64();
        }
        Word { bits: x as u64, width: 8 }
    }

    pub fn from_u16(x: u16) -> (w: Word)
        ensures
            w.bits == x,
            w.width == 16,
            w.wf(),
    {
        proof {
            lemma2_to64();
        }
        Word { bits: x as u64, width: 16 }
    }

    pub fn from_u32(x: u32) -> (w: Word)
        ensures
            w.bits == x,
            w.width == 32,
            w.wf(),
    {
        proof {
            lemma2_to64();
        }
        Word { bits: x as u64, width: 32 }
    }

    pub fn from_u64(x: u64) -> (w: Word)
        ensures
            w.bits == x,
            w.width == 64,
            w.wf(),
    {
        proof {
            lemma2_to64();
        }
        Word { bits: x, width: 64 }
    }

    /// The bits covered by `range`, 1-indexed from the least-significant
    /// bit of the word.
    pub fn extract(&self, range: BitRange) -> (r: u64)
        requires
            self.wf(),
            range.wf(self.width as nat),
        ensures
            r as nat == bits_of(self.bits as nat, range.off(), range.size()),
            (r as nat) < pow2(range.size()),
    {
        extract_word(self.bits, range, self.width)
    }

    /// The bits covered by `range` when positions are counted from the
    /// most-significant bit of the word.
    pub fn extract_msb(&self, range: BitRange) -> (r: u64)
        requires
            self.wf(),
            range.wf(self.width as nat),
        ensures
            r as nat == bits_of(
                self.bits as nat,
                (self.width - range.end) as nat,
                range.size(),
            ),
            (r as nat) < pow2(range.size()),
    {
        extract_word(self.bits, range.reflect(self.width), self.width)
    }

    /// Replaces the bits covered by `range` with the low bits of `value`;
    /// bits outside the range keep their value.
    pub fn insert(&mut self, value: u64, range: BitRange)
        requires
            old(self).wf(),
            range.wf(old(self).width as nat),
        ensures
            final(self).width == old(self).width,
            final(self).wf(),
            final(self).bits as nat == with_bits(
                old(self).bits as nat,
                range.off(),
                range.size(),
                value as nat,
            ),
            final(self).bits as nat % pow2(range.off()) == old(self).bits as nat % pow2(
                range.off(),
            ),
            final(self).bits as nat / pow2(range.off() + range.size()) == old(self).bits as nat
                / pow2(range.off() + range.size()),
            bits_of(final(self).bits as nat, range.off(), range.size()) == (value as nat) % pow2(
                range.size(),
            ),
    {
        self.bits = insert_word(self.bits, value, range, self.width);
        proof {
            crate::bits::lemma_with_bits_parts(
                old(self).bits as nat,
                range.off(),
                range.size(),
                value as nat,
            );
        }
    }

    /// The reflected variant of `insert`.
    pub fn insert_msb(&mut self, value: u64, range: BitRange)
        requires
            old(self).wf(),
            range.wf(old(self).width as nat),
        ensures
            final(self).width == old(self).width,
            final(self).wf(),
            final(self).bits as nat == with_bits(
                old(self).bits as nat,
                (old(self).width - range.end) as nat,
                range.size(),
                value as nat,
            ),
    {
        let r = range.reflect(self.width);
        self.bits = insert_word(self.bits, value, r, self.width);
    }
}

/// Total bit length of a layout.
pub open spec fn lens_sum(fields: Seq<FieldSpecView>) -> nat
    decreases fields.len(),
{
    if fields.len() == 0 {
        0
    } else {
        fields[0].len + lens_sum(fields.drop_first())
    }
}

/// A layout is well formed for a word of `width` bits when every field is
/// at least one bit long and the lengths sum to at most the width.
pub open spec fn layout_wf(fields: Seq<FieldSpecView>, width: nat) -> bool {
    (forall|i: int| 0 <= i < fields.len() ==> (#[trigger] fields[i]).len >= 1) && lens_sum(fields)
        <= width
}

/// Offset of the lowest bit of a field during a walk: the running offset
/// itself in least-significant-bit-first order, its reflection otherwise.
pub open spec fn field_off(width: nat, off: nat, len: nat, msb: bool) -> nat {
    if msb {
        (width - off - len) as nat
    } else {
        off
    }
}

/// The views of a sequence of field declarations.
pub open spec fn layout_view(l: Seq<FieldSpec>) -> Seq<FieldSpecView> {
    l.map_values(|f: FieldSpec| f@)
}

/// The bindings an unpack walk produces: one per named field, in layout
/// order, holding the coerced value of the field's bits.
pub open spec fn unpacked(
    word: nat,
    width: nat,
    fields: Seq<FieldSpecView>,
    off: nat,
    msb: bool,
) -> Seq<BindingView>
    decreases fields.len(),
{
    if fields.len() == 0 {
        Seq::empty()
    } else {
        let f = fields[0];
        let raw = bits_of(word, field_off(width, off, f.len, msb), f.len);
        let rest = unpacked(word, width, fields.drop_first(), off + f.len, msb);
        match f.name {
            Some(n) => seq![BindingView { name: n, value: coerce_spec(raw as u64, f.ty) }] + rest,
            None => rest,
        }
    }
}

/// One step of `lens_sum` at an arbitrary position.
proof fn lemma_lens_sum_skip(fields: Seq<FieldSpecView>, i: int)
    requires
        0 <= i < fields.len(),
    ensures
        lens_sum(fields.skip(i)) == fields[i].len + lens_sum(fields.skip(i + 1)),
{
    assert(fields.skip(i).drop_first() =~= fields.skip(i + 1));
    assert(fields.skip(i)[0] == fields[i]);
}

fn unpack_walk(word: &Word, layout: &Vec<FieldSpec>, msb: bool) -> (r: Vec<Binding>)
    requires
        word.wf(),
        layout_wf(layout_view(layout@), word.width as nat),
    ensures
        r@.map_values(|b: Binding| b@) == unpacked(
            word.bits as nat,
            word.width as nat,
            layout_view(layout@),
            0,
            msb,
        ),
{
    let ghost fv = layout_view(layout@);
    let ghost ww = word.bits as nat;
    let ghost tt = word.width as nat;
    let mut res: Vec<Binding> = Vec::new();
    let mut off: usize = 0;
    let mut i: usize = 0;
    proof {
        assert(fv.skip(0) =~= fv);
        assert(res@.map_values(|b: Binding| b@) + unpacked(ww, tt, fv, 0, msb) =~= unpacked(
            ww,
            tt,
            fv,
            0,
            msb,
        ));
    }
    while i < layout.len()
        invariant
            word.wf(),
            ww == word.bits as nat,
            tt == word.width as nat,
            fv == layout_view(layout@),
            layout_wf(fv, tt),
            i <= layout.len(),
            fv.len() == layout.len(),
            off as nat + lens_sum(fv.skip(i as int)) == lens_sum(fv),
            unpacked(ww, tt, fv, 0, msb) == res@.map_values(|b: Binding| b@) + unpacked(
                ww,
                tt,
                fv.skip(i as int),
                off as nat,
                msb,
            ),
        decreases layout.len() - i,
    {
        proof {
            lemma_lens_sum_skip(fv, i as int);
            assert(fv[i as int] == layout@[i as int]@);
            assert(fv[i as int].len >= 1);
        }
        let f = &layout[i];
        let rng = BitRange::new(off + 1, off + f.len);
        let raw = if msb {
            word.extract_msb(rng)
        } else {
            word.extract(rng)
        };
        let ghost prev = res@;
        match &f.name {
            Some(nm) => {
                let v = coerce(raw, f.ty);
                res.push(Binding { name: nm.clone(), value: v });
            },
            None => {},
        }
        proof {
            let fo = field_off(tt, off as nat, fv[i as int].len, msb);
            assert(raw as nat == bits_of(ww, fo, fv[i as int].len));
            assert(fv.skip(i as int).drop_first() =~= fv.skip(i as int + 1));
            assert(fv.skip(i as int)[0] == fv[i as int]);
            match fv[i as int].name {
                Some(n) => {
                    assert(unpacked(ww, tt, fv.skip(i as int), off as nat, msb) == seq![
                        BindingView { name: n, value: coerce_spec(raw, fv[i as int].ty) },
                    ] + unpacked(ww, tt, fv.skip(i as int + 1), off as nat + fv[i as int].len, msb));
                    assert(res@.map_values(|b: Binding| b@) =~= prev.map_values(
                        |b: Binding| b@,
                    ).push(res@.last()@));
                    assert(res@.map_values(|b: Binding| b@) + unpacked(
                        ww,
                        tt,
                        fv.skip(i as int + 1),
                        off as nat + fv[i as int].len,
                        msb,
                    ) =~= prev.map_values(|b: Binding| b@) + unpacked(
                        ww,
                        tt,
                        fv.skip(i as int),
                        off as nat,
                        msb,
                    ));
                },
                None => {
                    assert(unpacked(ww, tt, fv.skip(i as int), off as nat, msb) == unpacked(
                        ww,
                        tt,
                        fv.skip(i as int + 1),
                        off as nat + fv[i as int].len,
                        msb,
                    ));
                },
            }
        }
        off = off + f.len;
        i = i + 1;
    }
    proof {
        assert(fv.skip(i as int) =~= Seq::<FieldSpecView>::empty());
        assert(res@.map_values(|b: Binding| b@) + unpacked(ww, tt, fv.skip(i as int), off as nat, msb)
            =~= res@.map_values(|b: Binding| b@));
    }
    res
}

/// Unpacks `word` into one binding per named field of `layout`, reading
/// fields least-significant-bit-first from the running offset.
pub fn unpack(word: &Word, layout: &Vec<FieldSpec>) -> (r: Vec<Binding>)
    requires
        word.wf(),
        layout_wf(layout_view(layout@), word.width as nat),
    ensures
        r@.map_values(|b: Binding| b@) == unpacked(
            word.bits as nat,
            word.width as nat,
            layout_view(layout@),
            0,
            false,
        ),
{
    unpack_walk(word, layout, false)
}

/// The most-significant-bit-first unpack walk: each field is read through
/// the reflected range, so the field declared first covers the topmost bits.
pub fn unpack_msb(word: &Word, layout: &Vec<FieldSpec>) -> (r: Vec<Binding>)
    requires
        word.wf(),
        layout_wf(layout_view(layout@), word.width as nat),
    ensures
        r@.map_values(|b: Binding| b@) == unpacked(
            word.bits as nat,
            word.width as nat,
            layout_view(layout@),
            0,
            true,
        ),
{
    unpack_walk(word, layout, true)
}

/// One field of a pack walk: the value to write and its bit length.
pub struct PackField {
    pub value: u64,
    pub len: usize,
}

/// Abstract view of a pack field.
pub struct PackFieldView {
    pub value: u64,
    pub len: nat,
}

impl View for PackField {
    type V = PackFieldView;

    open spec fn view(&self) -> PackFieldView {
        PackFieldView { value: self.value, len: self.len as nat }
    }
}

impl PackField {
    pub fn new(value: u64, len: usize) -> (f: PackField)
        ensures
            f@ == (PackFieldView { value, len: len as nat }),
    {
        PackField { value, len }
    }
}

/// The views of a sequence of pack fields.
pub open spec fn pack_view(l: Seq<PackField>) -> Seq<PackFieldView> {
    l.map_values(|f: PackField| f@)
}

/// Total bit length of a pack walk.
pub open spec fn pack_lens_sum(fields: Seq<PackFieldView>) -> nat
    decreases fields.len(),
{
    if fields.len() == 0 {
        0
    } else {
        fields[0].len + pack_lens_sum(fields.drop_first())
    }
}

/// A pack walk is well formed for a word of `width` bits when every field
/// is at least one bit long and the lengths sum to at most the width.
pub open spec fn pack_wf(fields: Seq<PackFieldView>, width: nat) -> bool {
    (forall|i: int| 0 <= i < fields.len() ==> (#[trigger] fields[i]).len >= 1)
        && pack_lens_sum(fields) <= width
}

/// Ors the low `len` bits of `v` into the field of `w` at offset `off`;
/// bits already set inside the field stay set, bits outside it stay as
/// they are.
pub open spec fn or_into(w: nat, off: nat, len: nat, v: nat) -> nat {
    with_bits(w, off, len, or64(bits_of(w, off, len), v % pow2(len)))
}

/// The word a pack walk leaves behind: each field ored into place at the
/// running offset, in layout order.
pub open spec fn packed(
    w: nat,
    width: nat,
    fields: Seq<PackFieldView>,
    off: nat,
    msb: bool,
) -> nat
    decreases fields.len(),
{
    if fields.len() == 0 {
        w
    } else {
        let f = fields[0];
        packed(
            or_into(w, field_off(width, off, f.len, msb), f.len, f.value as nat),
            width,
            fields.drop_first(),
            off + f.len,
            msb,
        )
    }
}

/// One step of `pack_lens_sum` at an arbitrary position.
proof fn lemma_pack_lens_sum_skip(fields: Seq<PackFieldView>, i: int)
    requires
        0 <= i < fields.len(),
    ensures
        pack_lens_sum(fields.skip(i)) == fields[i].len + pack_lens_sum(fields.skip(i + 1)),
{
    assert(fields.skip(i).drop_first() =~= fields.skip(i + 1));
    assert(fields.skip(i)[0] == fields[i]);
}

fn pack_walk(word: &mut Word, fields: &Vec<PackField>, msb: bool)
    requires
        old(word).wf(),
        pack_wf(pack_view(fields@), old(word).width as nat),
    ensures
        final(word).wf(),
        final(word).width == old(word).width,
        final(word).bits as nat == packed(
            old(word).bits as nat,
            old(word).width as nat,
            pack_view(fields@),
            0,
            msb,
        ),
{
    let ghost pv = pack_view(fields@);
    let ghost tt = old(word).width as nat;
    let mut off: usize = 0;
    let mut i: usize = 0;
    proof {
        assert(pv.skip(0) =~= pv);
    }
    while i < fields.len()
        invariant
            word.wf(),
            word.width == old(word).width,
            tt == word.width as nat,
            pv == pack_view(fields@),
            pack_wf(pv, tt),
            i <= fields.len(),
            pv.len() == fields.len(),
            off as nat + pack_lens_sum(pv.skip(i as int)) == pack_lens_sum(pv),
            packed(old(word).bits as nat, tt, pv, 0, msb) == packed(
                word.bits as nat,
                tt,
                pv.skip(i as int),
                off as nat,
                msb,
            ),
        decreases fields.len() - i,
    {
        proof {
            lemma_pack_lens_sum_skip(pv, i as int);
            assert(pv[i as int] == fields@[i as int]@);
            assert(pv[i as int].len >= 1);
        }
        let f = &fields[i];
        let rng = BitRange::new(off + 1, off + f.len);
        let cur = if msb {
            word.extract_msb(rng)
        } else {
            word.extract(rng)
        };
        let vt = f.value & mask_for(f.len);
        let combined = cur | vt;
        let ghost before = word.bits as nat;
        let ghost fo = field_off(tt, off as nat, pv[i as int].len, msb);
        proof {
            crate::codec::lemma_mask_is_mod(f.value, pv[i as int].len);
            lemma_bits_of_bound(before, fo, pv[i as int].len);
            assert(cur as nat == bits_of(before, fo, pv[i as int].len));
            assert(vt as nat == (f.value as nat) % pow2(pv[i as int].len));
            assert(combined as nat == or64(
                bits_of(before, fo, pv[i as int].len),
                (f.value as nat) % pow2(pv[i as int].len),
            ));
        }
        if msb {
            word.insert_msb(combined, rng);
        } else {
            word.insert(combined, rng);
        }
        proof {
            assert(word.bits as nat == or_into(before, fo, pv[i as int].len, f.value as nat));
            assert(pv.skip(i as int).drop_first() =~= pv.skip(i as int + 1));
            assert(pv.skip(i as int)[0] == pv[i as int]);
            assert(packed(before, tt, pv.skip(i as int), off as nat, msb) == packed(
                word.bits as nat,
                tt,
                pv.skip(i as int + 1),
                off as nat + pv[i as int].len,
                msb,
            ));
        }
        off = off + f.len;
        i = i + 1;
    }
    proof {
        assert(pv.skip(i as int) =~= Seq::<PackFieldView>::empty());
    }
}

/// Initializing pack, least-significant-bit-first: creates a fresh
/// zero-initialized `width`-bit word and ors each field into place at the
/// running offset.
pub fn pack(width: usize, fields: &Vec<PackField>) -> (w: Word)
    requires
        1 <= width <= 64,
        pack_wf(pack_view(fields@), width as nat),
    ensures
        w.wf(),
        w.width == width,
        w.bits as nat == packed(0, width as nat, pack_view(fields@), 0, false),
{
    let mut w = Word::zeroed(width);
    pack_walk(&mut w, fields, false);
    w
}

/// Initializing pack, most-significant-bit-first.
pub fn pack_msb(width: usize, fields: &Vec<PackField>) -> (w: Word)
    requires
        1 <= width <= 64,
        pack_wf(pack_view(fields@), width as nat),
    ensures
        w.wf(),
        w.width == width,
        w.bits as nat == packed(0, width as nat, pack_view(fields@), 0, true),
{
    let mut w = Word::zeroed(width);
    pack_walk(&mut w, fields, true);
    w
}

/// Additive pack, least-significant-bit-first: ors further fields into an
/// already-assembled word without resetting previously written bits. The
/// running offset restarts at zero.
pub fn pack_add(word: &mut Word, fields: &Vec<PackField>)
    requires
        old(word).wf(),
        pack_wf(pack_view(fields@), old(word).width as nat),
    ensures
        final(word).wf(),
        final(word).width == old(word).width,
        final(word).bits as nat == packed(
            old(word).bits as nat,
            old(word).width as nat,
            pack_view(fields@),
            0,
            false,
        ),
{
    pack_walk(word, fields, false);
}

/// Additive pack, most-significant-bit-first.
pub fn pack_add_msb(word: &mut Word, fields: &Vec<PackField>)
    requires
        old(word).wf(),
        pack_wf(pack_view(fields@), old(word).width as nat),
    ensures
        final(word).wf(),
        final(word).width == old(word).width,
        final(word).bits as nat == packed(
            old(word).bits as nat,
            old(word).width as nat,
            pack_view(fields@),
            0,
            true,
        ),
{
    pack_walk(word, fields, true);
}

/// Boolean coercion law: a boolean field is false exactly on a zero raw
/// value and true on every nonzero raw value, whatever the field's length.
pub proof fn lemma_bool_coercion(raw: u64)
    ensures
        coerce_spec(raw, FieldType::Bool) == Value::Bool(raw != 0),
        raw == 0 ==> coerce_spec(raw, FieldType::Bool) == Value::Bool(false),
        raw != 0 ==> coerce_spec(raw, FieldType::Bool) == Value::Bool(true),
{
}

/// The declared type can represent any `len`-bit value without loss.
pub open spec fn type_fits(ty: FieldType, len: nat) -> bool {
    match ty {
        FieldType::Bool => len == 1,
        FieldType::U8 => len <= 8,
        FieldType::U16 => len <= 16,
        FieldType::U32 => len <= 32,
        FieldType::U64 => len <= 64,
        FieldType::U128 => len <= 128,
        FieldType::Usize => len <= usize::BITS,
    }
}

/// Coercion loses nothing on a value that fits its declared type.
proof fn lemma_coerce_uncoerce(raw: u64, ty: FieldType, len: nat)
    requires
        (raw as nat) < pow2(len),
        type_fits(ty, len),
    ensures
        uncoerce(coerce_spec(raw, ty)) == raw as nat,
{
    lemma2_to64();
    match ty {
        FieldType::Bool => {
            assert(raw == 0 || raw == 1);
        },
        FieldType::U8 => {
            crate::bits::lemma_pow2_increases(len, 8);
        },
        FieldType::U16 => {
            crate::bits::lemma_pow2_increases(len, 16);
        },
        FieldType::U32 => {
            crate::bits::lemma_pow2_increases(len, 32);
        },
        FieldType::U64 => {
        },
        FieldType::U128 => {
        },
        FieldType::Usize => {
            crate::bits::lemma_pow2_increases(len, usize::BITS as nat);
            unsigned_int_max_values();
        },
    }
}

/// An unpack walk over an all-named layout yields one binding per field.
proof fn lemma_unpacked_len(word: nat, width: nat, fields: Seq<FieldSpecView>, off: nat, msb: bool)
    requires
        forall|i: int| 0 <= i < fields.len() ==> (#[trigger] fields[i]).name is Some,
    ensures
        unpacked(word, width, fields, off, msb).len() == fields.len(),
    decreases fields.len(),
{
    if fields.len() > 0 {
        assert(fields[0].name is Some);
        lemma_unpacked_len(word, width, fields.drop_first(), off + fields[0].len, msb);
    }
}

/// The pack walk that writes a sequence of unpack bindings back, paired
/// with the layout the bindings came from.
pub open spec fn repack(bs: Seq<BindingView>, fields: Seq<FieldSpecView>) -> Seq<PackFieldView> {
    Seq::new(
        fields.len(),
        |i: int| PackFieldView { value: uncoerce(bs[i].value) as u64, len: fields[i].len },
    )
}

proof fn lemma_round_trip_rec(acc: nat, word: nat, width: nat, fields: Seq<FieldSpecView>, off: nat)
    requires
        width <= 64,
        off + lens_sum(fields) <= width,
        acc < pow2(width),
        bits_of(acc, off, lens_sum(fields)) == 0,
        forall|i: int| 0 <= i < fields.len() ==> (#[trigger] fields[i]).len >= 1,
        forall|i: int| 0 <= i < fields.len() ==> (#[trigger] fields[i]).name is Some,
        forall|i: int|
            0 <= i < fields.len() ==> type_fits((#[trigger] fields[i]).ty, fields[i].len),
    ensures
        packed(acc, width, repack(unpacked(word, width, fields, off, false), fields), off, false)
            == with_bits(acc, off, lens_sum(fields), bits_of(word, off, lens_sum(fields))),
    decreases fields.len(),
{
    lemma2_to64();
    if fields.len() == 0 {
        assert(repack(unpacked(word, width, fields, off, false), fields) =~= Seq::<
            PackFieldView,
        >::empty());
        crate::bits::lemma_with_bits_empty(acc, off, bits_of(word, off, 0));
    } else {
        let f = fields[0];
        let l0 = f.len;
        let rest = fields.drop_first();
        let l1 = lens_sum(rest);
        let raw = bits_of(word, off, l0);
        lemma_bits_of_bound(word, off, l0);
        crate::bits::lemma_pow2_increases(l0, 64);
        vstd::arithmetic::div_mod::lemma_small_mod(raw, pow2(l0));
        // The head binding packs the head field's raw value back.
        let b0 = BindingView { name: f.name->0, value: coerce_spec(raw as u64, f.ty) };
        assert(unpacked(word, width, fields, off, false) == seq![b0] + unpacked(
            word,
            width,
            rest,
            off + l0,
            false,
        ));
        lemma_coerce_uncoerce(raw as u64, f.ty, l0);
        let bs_all = unpacked(word, width, fields, off, false);
        let bs_rest = unpacked(word, width, rest, off + l0, false);
        lemma_unpacked_len(word, width, fields, off, false);
        lemma_unpacked_len(word, width, rest, off + l0, false);
        let rp = repack(bs_all, fields);
        let rp_rest = repack(bs_rest, rest);
        assert(rp[0] == PackFieldView { value: raw as u64, len: l0 });
        assert forall|i: int| 0 <= i < rp.drop_first().len() implies rp.drop_first()[i]
            == rp_rest[i] by {
            assert(bs_all[i + 1] == bs_rest[i]);
            assert(rest[i] == fields[i + 1]);
        }
        assert(rp.drop_first() =~= rp_rest);
        // The head field lands on an all-zero slice of `acc`, so the or
        // is a plain write.
        crate::bits::lemma_bits_of_concat(acc, off, l0, l1);
        vstd::arithmetic::power2::lemma_pow2_pos(l0);
        assert(bits_of(acc, off, l0) == 0 && bits_of(acc, off + l0, l1) * pow2(l0) == 0);
        assert(bits_of(acc, off + l0, l1) == 0) by (nonlinear_arith)
            requires
                bits_of(acc, off + l0, l1) * pow2(l0) == 0,
                0 < pow2(l0),
        ;
        crate::bits::lemma_or64_zero(raw);
        assert(or_into(acc, off, l0, raw) == with_bits(acc, off, l0, raw));
        let acc1 = with_bits(acc, off, l0, raw);
        crate::bits::lemma_with_bits_parts(acc, off, l0, raw);
        crate::bits::lemma_with_bits_bound(acc, off, l0, raw, width);
        assert(bits_of(acc1, off + l0, l1) == 0);
        // The tail walk writes the remaining fields above the head.
        lemma_round_trip_rec(acc1, word, width, rest, off + l0);
        assert(packed(acc, width, rp, off, false) == packed(
            acc1,
            width,
            rp_rest,
            off + l0,
            false,
        ));
        // Recombine head and tail into one write of the whole slice.
        let b = bits_of(word, off + l0, l1);
        lemma_bits_of_bound(word, off + l0, l1);
        vstd::arithmetic::div_mod::lemma_small_mod(b, pow2(l1));
        crate::bits::lemma_with_bits_compose(acc, off, l0, l1, raw, b);
        crate::bits::lemma_bits_of_concat(word, off, l0, l1);
    }
}

/// Round-trip law: packing the bindings an unpack walk produced, over the
/// same all-named layout, rebuilds the word on every bit the layout
/// covers; bits above the layout stay zero per the initializing mode.
pub proof fn lemma_round_trip(word: nat, width: nat, fields: Seq<FieldSpecView>)
    requires
        1 <= width <= 64,
        word < pow2(width),
        layout_wf(fields, width),
        forall|i: int| 0 <= i < fields.len() ==> (#[trigger] fields[i]).name is Some,
        forall|i: int|
            0 <= i < fields.len() ==> type_fits((#[trigger] fields[i]).ty, fields[i].len),
    ensures
        packed(0, width, repack(unpacked(word, width, fields, 0, false), fields), 0, false) == word
            % pow2(lens_sum(fields)),
{
    lemma2_to64();
    let ll = lens_sum(fields);
    crate::bits::lemma_bits_of_zero(0, ll);
    vstd::arithmetic::power2::lemma_pow2_pos(ll);
    lemma_round_trip_rec(0, word, width, fields, 0);
    // with_bits(0, 0, ll, v) is just the low bits of v, and the low-slice
    // read of `word` is its remainder.
    let b = bits_of(word, 0, ll);
    lemma_bits_of_bound(word, 0, ll);
    vstd::arithmetic::div_mod::lemma_small_mod(b, pow2(ll));
    assert(word / pow2(0) == word) by (nonlinear_arith)
        requires
            pow2(0) == 1,
    ;
    assert(0nat / pow2(ll) == 0) by (nonlinear_arith)
        requires
            0 < pow2(ll),
    ;
    assert(with_bits(0, 0, ll, b) == 0 * pow2(ll) + b * 1 + 0nat % 1);
    assert(0nat % 1 == 0) by (nonlinear_arith);
    assert(b * 1 == b) by (nonlinear_arith);
    assert(0 * pow2(ll) == 0) by (nonlinear_arith);
}

proof fn lemma_round_trip_msb_rec(
    acc: nat,
    word: nat,
    width: nat,
    fields: Seq<FieldSpecView>,
    off: nat,
)
    requires
        width <= 64,
        off + lens_sum(fields) <= width,
        acc < pow2(width),
        bits_of(acc, (width - off - lens_sum(fields)) as nat, lens_sum(fields)) == 0,
        forall|i: int| 0 <= i < fields.len() ==> (#[trigger] fields[i]).len >= 1,
        forall|i: int| 0 <= i < fields.len() ==> (#[trigger] fields[i]).name is Some,
        forall|i: int|
            0 <= i < fields.len() ==> type_fits((#[trigger] fields[i]).ty, fields[i].len),
    ensures
        packed(acc, width, repack(unpacked(word, width, fields, off, true), fields), off, true)
            == with_bits(
            acc,
            (width - off - lens_sum(fields)) as nat,
            lens_sum(fields),
            bits_of(word, (width - off - lens_sum(fields)) as nat, lens_sum(fields)),
        ),
    decreases fields.len(),
{
    lemma2_to64();
    let ll = lens_sum(fields);
    let base = (width - off - ll) as nat;
    if fields.len() == 0 {
        assert(repack(unpacked(word, width, fields, off, true), fields) =~= Seq::<
            PackFieldView,
        >::empty());
        crate::bits::lemma_with_bits_empty(acc, base, bits_of(word, base, 0));
    } else {
        let f = fields[0];
        let l0 = f.len;
        let rest = fields.drop_first();
        let l1s = lens_sum(rest);
        let a0 = (width - off - l0) as nat;
        assert(a0 == base + l1s);
        let raw = bits_of(word, a0, l0);
        lemma_bits_of_bound(word, a0, l0);
        crate::bits::lemma_pow2_increases(l0, 64);
        vstd::arithmetic::div_mod::lemma_small_mod(raw, pow2(l0));
        // The head binding packs the head field's raw value back.
        let b0 = BindingView { name: f.name->0, value: coerce_spec(raw as u64, f.ty) };
        assert(field_off(width, off, l0, true) == a0);
        assert(unpacked(word, width, fields, off, true) == seq![b0] + unpacked(
            word,
            width,
            rest,
            off + l0,
            true,
        ));
        lemma_coerce_uncoerce(raw as u64, f.ty, l0);
        let bs_all = unpacked(word, width, fields, off, true);
        let bs_rest = unpacked(word, width, rest, off + l0, true);
        lemma_unpacked_len(word, width, fields, off, true);
        lemma_unpacked_len(word, width, rest, off + l0, true);
        let rp = repack(bs_all, fields);
        let rp_rest = repack(bs_rest, rest);
        assert(rp[0] == PackFieldView { value: raw as u64, len: l0 });
        assert forall|i: int| 0 <= i < rp.drop_first().len() implies rp.drop_first()[i]
            == rp_rest[i] by {
            assert(bs_all[i + 1] == bs_rest[i]);
            assert(rest[i] == fields[i + 1]);
        }
        assert(rp.drop_first() =~= rp_rest);
        // The head field, the topmost of the walk, lands on an all-zero
        // slice of `acc`, so the or is a plain write.
        crate::bits::lemma_bits_of_concat(acc, base, l1s, l0);
        lemma_pow2_pos(l1s);
        assert(bits_of(acc, base, l1s) == 0 && bits_of(acc, a0, l0) * pow2(l1s) == 0);
        assert(bits_of(acc, a0, l0) == 0) by (nonlinear_arith)
            requires
                bits_of(acc, a0, l0) * pow2(l1s) == 0,
                0 < pow2(l1s),
        ;
        crate::bits::lemma_or64_zero(raw);
        assert(or_into(acc, a0, l0, raw) == with_bits(acc, a0, l0, raw));
        let acc1 = with_bits(acc, a0, l0, raw);
        crate::bits::lemma_with_bits_parts(acc, a0, l0, raw);
        crate::bits::lemma_with_bits_bound(acc, a0, l0, raw, width);
        // The bits below the head, still to be written, stay zero.
        crate::bits::lemma_mod_div_shift(acc1, base, l1s);
        crate::bits::lemma_mod_div_shift(acc, base, l1s);
        assert(bits_of(acc1, base, l1s) == 0);
        // The tail walk writes the remaining fields below the head.
        lemma_round_trip_msb_rec(acc1, word, width, rest, off + l0);
        assert(packed(acc, width, rp, off, true) == packed(acc1, width, rp_rest, off + l0, true));
        // Recombine head and tail into one write of the whole slice.
        let b = bits_of(word, base, l1s);
        lemma_bits_of_bound(word, base, l1s);
        vstd::arithmetic::div_mod::lemma_small_mod(b, pow2(l1s));
        crate::bits::lemma_with_bits_compose_down(acc, base, l1s, l0, b, raw);
        crate::bits::lemma_bits_of_concat(word, base, l1s, l0);
    }
}

/// Round-trip law for the most-significant-bit-first walk: packing the
/// bindings an unpack walk produced, over the same all-named layout,
/// rebuilds the topmost bits the layout covers, in place; the bits below
/// stay zero per the initializing mode.
pub proof fn lemma_round_trip_msb(word: nat, width: nat, fields: Seq<FieldSpecView>)
    requires
        1 <= width <= 64,
        word < pow2(width),
        layout_wf(fields, width),
        forall|i: int| 0 <= i < fields.len() ==> (#[trigger] fields[i]).name is Some,
        forall|i: int|
            0 <= i < fields.len() ==> type_fits((#[trigger] fields[i]).ty, fields[i].len),
    ensures
        packed(0, width, repack(unpacked(word, width, fields, 0, true), fields), 0, true)
            == bits_of(word, (width - lens_sum(fields)) as nat, lens_sum(fields)) * pow2(
            (width - lens_sum(fields)) as nat,
        ),
{
    let ll = lens_sum(fields);
    let base = (width - ll) as nat;
    crate::bits::lemma_bits_of_zero(base, ll);
    lemma_pow2_pos(width);
    lemma_round_trip_msb_rec(0, word, width, fields, 0);
    let b = bits_of(word, base, ll);
    lemma_bits_of_bound(word, base, ll);
    vstd::arithmetic::div_mod::lemma_small_mod(b, pow2(ll));
    lemma_pow2_pos(base);
    lemma_pow2_pos(base + ll);
    assert(0nat / pow2(base + ll) == 0) by (nonlinear_arith)
        requires
            0 < pow2(base + ll),
    ;
    assert(0nat % pow2(base) == 0) by (nonlinear_arith)
        requires
            0 < pow2(base),
    ;
    assert(with_bits(0, base, ll, b) == 0 * pow2(base + ll) + b * pow2(base) + 0);
    assert(0 * pow2(base + ll) == 0) by (nonlinear_arith);
}

/// The boundary check between a front end and the engine: whether a
/// layout is well formed for a word of `width` bits.
pub fn layout_fits(layout: &Vec<FieldSpec>, width: usize) -> (r: bool)
    ensures
        r == layout_wf(layout_view(layout@), width as nat),
{
    let ghost fv = layout_view(layout@);
    let mut sum: usize = 0;
    let mut i: usize = 0;
    proof {
        assert(fv.skip(0) =~= fv);
    }
    while i < layout.len()
        invariant
            fv == layout_view(layout@),
            i <= layout.len(),
            fv.len() == layout.len(),
            sum as nat + lens_sum(fv.skip(i as int)) == lens_sum(fv),
            forall|j: int| 0 <= j < i ==> (#[trigger] fv[j]).len >= 1,
        decreases layout.len() - i,
    {
        proof {
            lemma_lens_sum_skip(fv, i as int);
            assert(fv[i as int] == layout@[i as int]@);
        }
        let f = &layout[i];
        if f.len == 0 {
            proof {
                assert(!(fv[i as int].len >= 1));
            }
            return false;
        }
        match sum.checked_add(f.len) {
            Some(s) => {
                sum = s;
            },
            None => {
                // The lengths already exceed the largest possible width.
                return false;
            },
        }
        i = i + 1;
    }
    proof {
        assert(fv.skip(i as int) =~= Seq::<FieldSpecView>::empty());
    }
    sum <= width
}

/// The boundary check for a pack walk: whether its fields fit a word of
/// `width` bits.
pub fn pack_fits(fields: &Vec<PackField>, width: usize) -> (r: bool)
    ensures
        r == pack_wf(pack_view(fields@), width as nat),
{
    let ghost pv = pack_view(fields@);
    let mut sum: usize = 0;
    let mut i: usize = 0;
    proof {
        assert(pv.skip(0) =~= pv);
    }
    while i < fields.len()
        invariant
            pv == pack_view(fields@),
            i <= fields.len(),
            pv.len() == fields.len(),
            sum as nat + pack_lens_sum(pv.skip(i as int)) == pack_lens_sum(pv),
            forall|j: int| 0 <= j < i ==> (#[trigger] pv[j]).len >= 1,
        decreases fields.len() - i,
    {
        proof {
            lemma_pack_lens_sum_skip(pv, i as int);
            assert(pv[i as int] == fields@[i as int]@);
        }
        let f = &fields[i];
        if f.len == 0 {
            proof {
                assert(!(pv[i as int].len >= 1));
            }
            return false;
        }
        match sum.checked_add(f.len) {
            Some(s) => {
                sum = s;
            },
            None => {
                // The lengths already exceed the largest possible width.
                return false;
            },
        }
        i = i + 1;
    }
    proof {
        assert(pv.skip(i as int) =~= Seq::<PackFieldView>::empty());
    }
    sum <= width
}

} // verus!
