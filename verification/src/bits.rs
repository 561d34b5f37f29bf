//! Big-endian words and bit fields of a 16-bit value.

use vstd::prelude::*;

verus! {

/// The 16-bit word whose high byte is `hi` and whose low byte is `lo`.
pub open spec fn word_of(hi: u8, lo: u8) -> u16 {
    (hi as int * 256 + lo as int) as u16
}

/// The high byte of a word.
pub open spec fn hi_byte(w: u16) -> u8 {
    (w / 256) as u8
}

/// The low byte of a word.
pub open spec fn lo_byte(w: u16) -> u8 {
    (w % 256) as u8
}

/// Packs two bytes, high byte first.
pub fn pack_word(hi: u8, lo: u8) -> (w: u16)
    ensures
        w == word_of(hi, lo),
        w == hi as int * 256 + lo as int,
{
    (hi as u16) * 256 + (lo as u16)
}

/// Splits a word into its high and low byte.
pub fn unpack_word(w: u16) -> (r: (u8, u8))
    ensures
        r.0 == hi_byte(w),
        r.1 == lo_byte(w),
        word_of(r.0, r.1) == w,
{
    ((w / 256) as u8, (w % 256) as u8)
}

/// Packing the two bytes of a word gives the word back, and unpacking a packed
/// pair gives the pair back.
pub proof fn lemma_word_round_trip(w: u16, hi: u8, lo: u8)
    ensures
        word_of(hi_byte(w), lo_byte(w)) == w,
        hi_byte(word_of(hi, lo)) == hi,
        lo_byte(word_of(hi, lo)) == lo,
{
}

/// A 16-bit big-endian machine word.
#[derive(Clone, Copy, Debug)]
pub struct ZWord(pub u16);

impl From<ZWord> for (u8, u8) {
    fn from(v: ZWord) -> (r: (u8, u8)) {
        unpack_word(v.0)
    }
}

impl vstd::std_specs::convert::FromSpecImpl<ZWord> for (u8, u8) {
    open spec fn obeys_from_spec() -> bool {
        true
    }

    open spec fn from_spec(v: ZWord) -> (u8, u8) {
        (hi_byte(v.0), lo_byte(v.0))
    }
}

impl From<(u8, u8)> for ZWord {
    fn from(v: (u8, u8)) -> (r: ZWord) {
        ZWord(pack_word(v.0, v.1))
    }
}

impl vstd::std_specs::convert::FromSpecImpl<(u8, u8)> for ZWord {
    open spec fn obeys_from_spec() -> bool {
        true
    }

    open spec fn from_spec(v: (u8, u8)) -> ZWord {
        ZWord(word_of(v.0, v.1))
    }
}

impl From<u16> for ZWord {
    fn from(v: u16) -> (r: ZWord) {
        ZWord(v)
    }
}

impl vstd::std_specs::convert::FromSpecImpl<u16> for ZWord {
    open spec fn obeys_from_spec() -> bool {
        true
    }

    open spec fn from_spec(v: u16) -> ZWord {
        ZWord(v)
    }
}

impl From<ZWord> for u16 {
    fn from(v: ZWord) -> (r: u16) {
        v.0
    }
}

impl vstd::std_specs::convert::FromSpecImpl<ZWord> for u16 {
    open spec fn obeys_from_spec() -> bool {
        true
    }

    open spec fn from_spec(v: ZWord) -> u16 {
        v.0
    }
}

/// The mask that selects the `width`-bit field whose lowest bit is bit `offset`.
pub open spec fn field_mask(width: u32, offset: u32) -> u16 {
    ((((1u32 << width) - 1) as u32) << offset) as u16
}

/// The value held in a field of `v`.
pub open spec fn field_get(v: u16, width: u32, offset: u32) -> u16 {
    (v & field_mask(width, offset)) >> offset
}

/// `v` with `x` written into a field; bits of `x` that do not fit are dropped.
pub open spec fn field_put(v: u16, x: u16, width: u32, offset: u32) -> u16 {
    (v & !field_mask(width, offset)) | ((x << offset) & field_mask(width, offset))
}

/// A field's value is below two to the power of its width, and no larger than
/// the word it is read from.
pub proof fn lemma_field_bound(v: u16, width: u32, offset: u32)
    by (bit_vector)
    requires
        1 <= width,
        width + offset <= 16,
    ensures
        field_get(v, width, offset) < (1u32 << width),
        field_get(v, width, offset) <= v,
        1u32 << width >= 1,
        (((1u32 << width) - 1) as u32) << offset <= 0xffff,
{
}

/// The powers of two that a field's width can give.
pub proof fn lemma_shift_values()
    by (bit_vector)
    ensures
        1u32 << 1 == 2,
        1u32 << 2 == 4,
        1u32 << 3 == 8,
        1u32 << 4 == 16,
        1u32 << 5 == 32,
        1u32 << 6 == 64,
        1u32 << 7 == 128,
        1u32 << 8 == 256,
        1u32 << 9 == 512,
        1u32 << 10 == 1024,
        1u32 << 11 == 2048,
        1u32 << 12 == 4096,
        1u32 << 13 == 8192,
        1u32 << 14 == 16384,
        1u32 << 15 == 32768,
        1u32 << 16 == 65536,
{
}

/// Reading a field after writing it gives what was written, cut to the width.
pub proof fn lemma_field_put_get(v: u16, x: u16, width: u32, offset: u32)
    by (bit_vector)
    requires
        1 <= width,
        width + offset <= 16,
    ensures
        field_get(field_put(v, x, width, offset), width, offset) == x & field_mask(width, 0),
        x < (1u32 << width) ==> field_get(field_put(v, x, width, offset), width, offset) == x,
{
}

/// Writing a field leaves every field that does not overlap it as it was.
pub proof fn lemma_field_put_other(v: u16, x: u16, width: u32, offset: u32, w2: u32, o2: u32)
    by (bit_vector)
    requires
        1 <= width,
        width + offset <= 16,
        1 <= w2,
        w2 + o2 <= 16,
        o2 + w2 <= offset || offset + width <= o2,
    ensures
        field_get(field_put(v, x, width, offset), w2, o2) == field_get(v, w2, o2),
{
}

/// A view of the `W`-bit field at bit `O` of a 16-bit value.
#[derive(Clone, Copy, Debug)]
pub struct BitField<const W: u8, const O: u8> {
    pub val: u16,
}

impl<const W: u8, const O: u8> BitField<W, O> {
    /// The field lies inside the 16 bits.
    pub open spec fn fits() -> bool {
        1 <= W && W + O <= 16
    }

    pub open spec fn mask() -> u16 {
        field_mask(W as u32, O as u32)
    }

    /// The field's value.
    pub open spec fn value(self) -> u16 {
        field_get(self.val, W as u32, O as u32)
    }

    fn mask_bits() -> (m: u16)
        requires
            Self::fits(),
        ensures
            m == Self::mask(),
    {
        proof {
            lemma_field_bound(0, W as u32, O as u32);
        }
        let ones: u32 = (1u32 << (W as u32)) - 1;
        (ones << (O as u32)) as u16
    }

    pub fn new(val: u16) -> (r: Self)
        ensures
            r.val == val,
    {
        BitField { val }
    }

    /// Whether every bit of the field is one.
    pub fn is_set(&self) -> (r: bool)
        requires
            Self::fits(),
        ensures
            r == (self.val & Self::mask() == Self::mask()),
    {
        let m = Self::mask_bits();
        self.val & m == m
    }

    pub fn value_of(&self) -> (r: u16)
        requires
            Self::fits(),
        ensures
            r == self.value(),
            r < (1u32 << (W as u32)),
            r <= self.val,
    {
        proof {
            lemma_field_bound(self.val, W as u32, O as u32);
        }
        let m = Self::mask_bits();
        (self.val & m) >> (O as u32)
    }

    /// Writes `val` into the field and leaves the other bits.
    pub fn set(&mut self, val: u16)
        requires
            Self::fits(),
        ensures
            final(self).val == field_put(old(self).val, val, W as u32, O as u32),
    {
        let m = Self::mask_bits();
        self.val = (self.val & !m) | ((val << (O as u32)) & m);
    }

    /// Copies the field's bits into `out` and leaves the other bits of `out`.
    pub fn write(&self, out: &mut u16)
        requires
            Self::fits(),
        ensures
            *final(out) == (*old(out) & !Self::mask()) | (self.val & Self::mask()),
    {
        let m = Self::mask_bits();
        *out = (*out & !m) | (self.val & m);
    }
}

} // verus!
