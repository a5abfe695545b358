//! The heap cell: one 64-bit word split into four fields.
//!
//! Counting from the least significant bit, the word holds the value in bits
//! 0 to 55, the flag `f` in bit 56, the flag `m` in bit 57 and the tag in
//! bits 58 to 63. In memory a cell is the eight bytes of that word, least
//! significant byte first.

use vstd::prelude::*;
use vstd::std_specs::convert::{FromSpec, FromSpecImpl};

verus! {

/// The largest value that fits the 56-bit value field.
pub const VAL_MAX: u64 = 0x00ff_ffff_ffff_ffff;

/// The largest tag that fits the 6-bit tag field.
pub const TAG_MAX: u8 = 63;

/// One heap slot. Every 64-bit pattern is a cell.
#[derive(Copy, Clone, Debug)]
pub struct HeapCellValue {
    pub bits: u64,
}

impl View for HeapCellValue {
    type V = u64;

    open spec fn view(&self) -> u64 {
        self.bits
    }
}

/// The value field of the word `w`.
pub open spec fn val_of(w: u64) -> u64 {
    w & 0x00ff_ffff_ffff_ffff
}

/// The flag `f` of the word `w`.
pub open spec fn f_of(w: u64) -> bool {
    (w >> 56) & 1 == 1
}

/// The flag `m` of the word `w`.
pub open spec fn m_of(w: u64) -> bool {
    (w >> 57) & 1 == 1
}

/// The tag field of the word `w`.
pub open spec fn tag_of(w: u64) -> u8 {
    (w >> 58) as u8
}

/// A flag as the one bit that stores it.
pub open spec fn bit(b: bool) -> u64 {
    if b {
        1
    } else {
        0
    }
}

/// The word whose four fields are the given ones.
pub open spec fn pack(val: u64, f: bool, m: bool, tag: u8) -> u64 {
    val | (bit(f) << 56) | (bit(m) << 57) | ((tag as u64) << 58)
}

/// Whether a value and a tag fit the bit ranges of their fields.
pub open spec fn fields_fit(val: u64, tag: u8) -> bool {
    val <= 0x00ff_ffff_ffff_ffff && tag <= 63
}

/// Splitting a word into its fields and packing them again gives the word
/// back, for every 64-bit pattern.
pub proof fn lemma_unpack_pack(w: u64)
    ensures
        pack(val_of(w), f_of(w), m_of(w), tag_of(w)) == w,
        fields_fit(val_of(w), tag_of(w)),
{
    lemma_field_bits(w);
    assert(w >> 58 <= 63) by (bit_vector);
    assert((w & 0x00ff_ffff_ffff_ffff) | (((w >> 56) & 1) << 56) | (((w >> 57) & 1) << 57) | ((w
        >> 58) << 58) == w) by (bit_vector);
    assert(w & 0x00ff_ffff_ffff_ffff <= 0x00ff_ffff_ffff_ffff) by (bit_vector);
}

/// Packing four fields that fit and splitting the word again gives the four
/// fields back.
pub proof fn lemma_pack_unpack(val: u64, f: bool, m: bool, tag: u8)
    requires
        fields_fit(val, tag),
    ensures
        val_of(pack(val, f, m, tag)) == val,
        f_of(pack(val, f, m, tag)) == f,
        m_of(pack(val, f, m, tag)) == m,
        tag_of(pack(val, f, m, tag)) == tag,
{
    let fb: u64 = bit(f);
    let mb: u64 = bit(m);
    let t: u64 = tag as u64;
    let w: u64 = val | (fb << 56) | (mb << 57) | (t << 58);
    assert(w & 0x00ff_ffff_ffff_ffff == val && (w >> 56) & 1 == fb && (w >> 57) & 1 == mb && (w
        >> 58) == t) by (bit_vector)
        requires
            val <= 0x00ff_ffff_ffff_ffff,
            fb <= 1,
            mb <= 1,
            t <= 63,
            w == val | (fb << 56) | (mb << 57) | (t << 58),
    ;
    assert((w >> 58) as u8 == tag);
}

/// The eight bytes of the word `w` as they lie in memory, least significant
/// byte first.
pub open spec fn le_bytes(w: u64) -> Seq<u8> {
    seq![
        (w & 0xff) as u8,
        ((w >> 8) & 0xff) as u8,
        ((w >> 16) & 0xff) as u8,
        ((w >> 24) & 0xff) as u8,
        ((w >> 32) & 0xff) as u8,
        ((w >> 40) & 0xff) as u8,
        ((w >> 48) & 0xff) as u8,
        ((w >> 56) & 0xff) as u8,
    ]
}

/// The word whose eight bytes in memory are `b`.
pub open spec fn le_word(b: Seq<u8>) -> u64
    recommends
        b.len() == 8,
{
    (b[0] as u64) | ((b[1] as u64) << 8) | ((b[2] as u64) << 16) | ((b[3] as u64) << 24) | ((
    b[4] as u64) << 32) | ((b[5] as u64) << 40) | ((b[6] as u64) << 48) | ((b[7] as u64) << 56)
}

/// A word is the word of its own bytes.
pub proof fn lemma_le_bytes_word(w: u64)
    ensures
        le_bytes(w).len() == 8,
        le_word(le_bytes(w)) == w,
{
    let b = le_bytes(w);
    assert(b[0] as u64 == w & 0xff && b[1] as u64 == (w >> 8) & 0xff && b[2] as u64 == (w >> 16)
        & 0xff && b[3] as u64 == (w >> 24) & 0xff && b[4] as u64 == (w >> 32) & 0xff && b[5] as u64
        == (w >> 40) & 0xff && b[6] as u64 == (w >> 48) & 0xff && b[7] as u64 == (w >> 56) & 0xff)
        by {
        lemma_low_byte(w);
        lemma_low_byte(w >> 8);
        lemma_low_byte(w >> 16);
        lemma_low_byte(w >> 24);
        lemma_low_byte(w >> 32);
        lemma_low_byte(w >> 40);
        lemma_low_byte(w >> 48);
        lemma_low_byte(w >> 56);
    }
    assert((w & 0xff) | (((w >> 8) & 0xff) << 8) | (((w >> 16) & 0xff) << 16) | (((w >> 24) & 0xff)
        << 24) | (((w >> 32) & 0xff) << 32) | (((w >> 40) & 0xff) << 40) | (((w >> 48) & 0xff)
        << 48) | (((w >> 56) & 0xff) << 56) == w) by (bit_vector);
}

/// Eight bytes are the bytes of their own word.
pub proof fn lemma_le_word_bytes(b: Seq<u8>)
    requires
        b.len() == 8,
    ensures
        le_bytes(le_word(b)) == b,
{
    let (b0, b1, b2, b3) = (b[0], b[1], b[2], b[3]);
    let (b4, b5, b6, b7) = (b[4], b[5], b[6], b[7]);
    let w = le_word(b);
    assert((w & 0xff) as u8 == b0 && ((w >> 8) & 0xff) as u8 == b1 && ((w >> 16) & 0xff) as u8
        == b2 && ((w >> 24) & 0xff) as u8 == b3 && ((w >> 32) & 0xff) as u8 == b4 && ((w >> 40)
        & 0xff) as u8 == b5 && ((w >> 48) & 0xff) as u8 == b6 && ((w >> 56) & 0xff) as u8 == b7)
        by (bit_vector)
        requires
            w == (b0 as u64) | ((b1 as u64) << 8) | ((b2 as u64) << 16) | ((b3 as u64) << 24) | ((
            b4 as u64) << 32) | ((b5 as u64) << 40) | ((b6 as u64) << 48) | ((b7 as u64) << 56),
    ;
    assert(le_bytes(w) =~= b);
}

proof fn lemma_low_byte(w: u64)
    ensures
        ((w & 0xff) as u8) as u64 == w & 0xff,
{
    assert(((w & 0xff) as u8) as u64 == w & 0xff) by (bit_vector);
}

proof fn lemma_field_bits(w: u64)
    ensures
        bit(f_of(w)) == (w >> 56) & 1,
        bit(m_of(w)) == (w >> 57) & 1,
        tag_of(w) as u64 == w >> 58,
{
    assert((w >> 56) & 1 == 0 || (w >> 56) & 1 == 1) by (bit_vector);
    assert((w >> 57) & 1 == 0 || (w >> 57) & 1 == 1) by (bit_vector);
    assert(((w >> 58) as u8) as u64 == w >> 58) by (bit_vector);
}

impl HeapCellValue {
    /// The cell whose fields are all zero.
    pub fn new() -> (cell: Self)
        ensures
            cell@ == 0,
            cell@ == pack(0, false, false, 0),
            val_of(cell@) == 0 && !f_of(cell@) && !m_of(cell@) && tag_of(cell@) == 0,
    {
        proof {
            assert(0u64 | (0u64 << 56) | (0u64 << 57) | (0u64 << 58) == 0) by (bit_vector);
            lemma_pack_unpack(0, false, false, 0);
        }
        HeapCellValue { bits: 0 }
    }

    /// The 56-bit value.
    pub fn val(&self) -> (v: u64)
        ensures
            v == val_of(self@),
            v <= VAL_MAX,
    {
        let w: u64 = self.bits;
        assert(w & 0x00ff_ffff_ffff_ffff <= 0x00ff_ffff_ffff_ffff) by (bit_vector);
        w & VAL_MAX
    }

    /// The flag `f`.
    pub fn f(&self) -> (b: bool)
        ensures
            b == f_of(self@),
    {
        (self.bits >> 56) & 1 == 1
    }

    /// The flag `m`.
    pub fn m(&self) -> (b: bool)
        ensures
            b == m_of(self@),
    {
        (self.bits >> 57) & 1 == 1
    }

    /// The 6-bit tag.
    pub fn tag(&self) -> (t: u8)
        ensures
            t == tag_of(self@),
            t <= TAG_MAX,
    {
        let w: u64 = self.bits;
        assert(w >> 58 <= 63) by (bit_vector);
        (w >> 58) as u8
    }

    /// The cell whose bytes in memory are `bytes`.
    pub fn from_bytes(bytes: [u8; 8]) -> (cell: Self)
        ensures
            cell@ == le_word(bytes@),
    {
        let w: u64 = (bytes[0] as u64) | ((bytes[1] as u64) << 8) | ((bytes[2] as u64) << 16) | ((
        bytes[3] as u64) << 24) | ((bytes[4] as u64) << 32) | ((bytes[5] as u64) << 40) | ((
        bytes[6] as u64) << 48) | ((bytes[7] as u64) << 56);
        HeapCellValue { bits: w }
    }

    /// The bytes of the cell as they lie in memory.
    pub fn into_bytes(self) -> (bytes: [u8; 8])
        ensures
            bytes@ == le_bytes(self@),
    {
        let w: u64 = self.bits;
        let bytes: [u8; 8] = [
            (w & 0xff) as u8,
            ((w >> 8) & 0xff) as u8,
            ((w >> 16) & 0xff) as u8,
            ((w >> 24) & 0xff) as u8,
            ((w >> 32) & 0xff) as u8,
            ((w >> 40) & 0xff) as u8,
            ((w >> 48) & 0xff) as u8,
            ((w >> 56) & 0xff) as u8,
        ];
        assert(bytes@ =~= le_bytes(w));
        bytes
    }

    /// Stores `val` in the value field and leaves the other fields as they
    /// are.
    pub fn set_val(&mut self, val: u64)
        requires
            val <= VAL_MAX,
        ensures
            final(self)@ == pack(val, f_of(old(self)@), m_of(old(self)@), tag_of(old(self)@)),
            val_of(final(self)@) == val,
            f_of(final(self)@) == f_of(old(self)@),
            m_of(final(self)@) == m_of(old(self)@),
            tag_of(final(self)@) == tag_of(old(self)@),
    {
        let w: u64 = self.bits;
        proof {
            lemma_field_bits(w);
            lemma_unpack_pack(w);
            lemma_pack_unpack(val, f_of(w), m_of(w), tag_of(w));
            assert((w & !0x00ff_ffff_ffff_ffffu64) | val == val | (((w >> 56) & 1) << 56) | (((w
                >> 57) & 1) << 57) | ((w >> 58) << 58)) by (bit_vector);
        }
        self.bits = (w & !VAL_MAX) | val;
    }

    /// Stores `f` in the flag `f` and leaves the other fields as they are.
    pub fn set_f(&mut self, f: bool)
        ensures
            final(self)@ == pack(val_of(old(self)@), f, m_of(old(self)@), tag_of(old(self)@)),
            val_of(final(self)@) == val_of(old(self)@),
            f_of(final(self)@) == f,
            m_of(final(self)@) == m_of(old(self)@),
            tag_of(final(self)@) == tag_of(old(self)@),
    {
        let w: u64 = self.bits;
        let b: u64 = if f {
            1
        } else {
            0
        };
        proof {
            lemma_field_bits(w);
            lemma_unpack_pack(w);
            lemma_pack_unpack(val_of(w), f, m_of(w), tag_of(w));
            assert((w & !(1u64 << 56)) | (b << 56) == (w & 0x00ff_ffff_ffff_ffff) | (b << 56) | (((w
                >> 57) & 1) << 57) | ((w >> 58) << 58)) by (bit_vector);
        }
        self.bits = (w & !(1u64 << 56)) | (b << 56);
    }

    /// Stores `m` in the flag `m` and leaves the other fields as they are.
    pub fn set_m(&mut self, m: bool)
        ensures
            final(self)@ == pack(val_of(old(self)@), f_of(old(self)@), m, tag_of(old(self)@)),
            val_of(final(self)@) == val_of(old(self)@),
            f_of(final(self)@) == f_of(old(self)@),
            m_of(final(self)@) == m,
            tag_of(final(self)@) == tag_of(old(self)@),
    {
        let w: u64 = self.bits;
        let b: u64 = if m {
            1
        } else {
            0
        };
        proof {
            lemma_field_bits(w);
            lemma_unpack_pack(w);
            lemma_pack_unpack(val_of(w), f_of(w), m, tag_of(w));
            assert((w & !(1u64 << 57)) | (b << 57) == (w & 0x00ff_ffff_ffff_ffff) | (((w >> 56) & 1)
                << 56) | (b << 57) | ((w >> 58) << 58)) by (bit_vector);
        }
        self.bits = (w & !(1u64 << 57)) | (b << 57);
    }

    /// Stores `tag` in the tag field and leaves the other fields as they
    /// are.
    pub fn set_tag(&mut self, tag: u8)
        requires
            tag <= TAG_MAX,
        ensures
            final(self)@ == pack(val_of(old(self)@), f_of(old(self)@), m_of(old(self)@), tag),
            val_of(final(self)@) == val_of(old(self)@),
            f_of(final(self)@) == f_of(old(self)@),
            m_of(final(self)@) == m_of(old(self)@),
            tag_of(final(self)@) == tag,
    {
        let w: u64 = self.bits;
        let t: u64 = tag as u64;
        proof {
            lemma_field_bits(w);
            lemma_unpack_pack(w);
            lemma_pack_unpack(val_of(w), f_of(w), m_of(w), tag);
            assert((w & 0x03ff_ffff_ffff_ffff) | (t << 58) == (w & 0x00ff_ffff_ffff_ffff) | (((w
                >> 56) & 1) << 56) | (((w >> 57) & 1) << 57) | (t << 58)) by (bit_vector);
        }
        self.bits = (w & 0x03ff_ffff_ffff_ffff) | (t << 58);
    }

    /// The cell with `val` in the value field and the other fields of
    /// `self`.
    pub fn with_val(self, val: u64) -> (cell: Self)
        requires
            val <= VAL_MAX,
        ensures
            cell@ == pack(val, f_of(self@), m_of(self@), tag_of(self@)),
            val_of(cell@) == val,
            f_of(cell@) == f_of(self@),
            m_of(cell@) == m_of(self@),
            tag_of(cell@) == tag_of(self@),
    {
        let mut cell = self;
        cell.set_val(val);
        cell
    }

    /// The cell with `f` in the flag `f` and the other fields of `self`.
    pub fn with_f(self, f: bool) -> (cell: Self)
        ensures
            cell@ == pack(val_of(self@), f, m_of(self@), tag_of(self@)),
            val_of(cell@) == val_of(self@),
            f_of(cell@) == f,
            m_of(cell@) == m_of(self@),
            tag_of(cell@) == tag_of(self@),
    {
        let mut cell = self;
        cell.set_f(f);
        cell
    }

    /// The cell with `m` in the flag `m` and the other fields of `self`.
    pub fn with_m(self, m: bool) -> (cell: Self)
        ensures
            cell@ == pack(val_of(self@), f_of(self@), m, tag_of(self@)),
            val_of(cell@) == val_of(self@),
            f_of(cell@) == f_of(self@),
            m_of(cell@) == m,
            tag_of(cell@) == tag_of(self@),
    {
        let mut cell = self;
        cell.set_m(m);
        cell
    }

    /// The cell with `tag` in the tag field and the other fields of `self`.
    pub fn with_tag(self, tag: u8) -> (cell: Self)
        requires
            tag <= TAG_MAX,
        ensures
            cell@ == pack(val_of(self@), f_of(self@), m_of(self@), tag),
            val_of(cell@) == val_of(self@),
            f_of(cell@) == f_of(self@),
            m_of(cell@) == m_of(self@),
            tag_of(cell@) == tag,
    {
        let mut cell = self;
        cell.set_tag(tag);
        cell
    }
}

impl From<u64> for HeapCellValue {
    /// The cell whose word is `w`.
    fn from(w: u64) -> (cell: Self) {
        HeapCellValue { bits: w }
    }
}

impl FromSpecImpl<u64> for HeapCellValue {
    open spec fn obeys_from_spec() -> bool {
        true
    }

    open spec fn from_spec(w: u64) -> Self {
        HeapCellValue { bits: w }
    }
}

impl From<HeapCellValue> for u64 {
    /// The word of `cell`.
    fn from(cell: HeapCellValue) -> (w: u64) {
        cell.bits
    }
}

impl FromSpecImpl<HeapCellValue> for u64 {
    open spec fn obeys_from_spec() -> bool {
        true
    }

    open spec fn from_spec(cell: HeapCellValue) -> u64 {
        cell.bits
    }
}

/// A word made into a cell and back is the same word, and a cell made into
/// a word and back is the same cell.
pub proof fn lemma_word_round_trip(w: u64, cell: HeapCellValue)
    ensures
        <u64 as FromSpec<HeapCellValue>>::from_spec(<HeapCellValue as FromSpec<u64>>::from_spec(w))
            == w,
        <HeapCellValue as FromSpec<u64>>::from_spec(<u64 as FromSpec<HeapCellValue>>::from_spec(cell))
            == cell,
        <HeapCellValue as FromSpec<u64>>::from_spec(w)@ == w,
        <u64 as FromSpec<HeapCellValue>>::from_spec(cell) == cell@,
{
}

} // verus!
