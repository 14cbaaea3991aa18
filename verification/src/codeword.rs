//! The 32-bit code word of one 2x2 block of the compressed image: the
//! quantized cosine coefficients and chroma indices of the block, each in a
//! fixed bit field.
//!
//! | field        | width | lsb | read as  |
//! |--------------|-------|-----|----------|
//! | `a`          | 9     | 23  | unsigned |
//! | `b`          | 5     | 18  | signed   |
//! | `c`          | 5     | 13  | signed   |
//! | `d`          | 5     | 8   | signed   |
//! | `indexed_pb` | 4     | 4   | unsigned |
//! | `indexed_pr` | 4     | 0   | unsigned |

use vstd::prelude::*;
use crate::array2::Array2;
use crate::bitpack::{
    field, fits_signed, gets, getu, half_range, lemma_fits_unsigned_is_le_mask, low_mask, newu,
    news, signed_value, twos_complement,
};

verus! {

/// The quantized content of one 2x2 block: the average brightness `a`,
/// the brightness gradients `b`, `c` and `d`, and the indices of the
/// average chroma values in the chroma quantization table.
#[derive(Clone, Copy, Debug, PartialEq, Eq, Structural)]
pub struct ImageCos {
    pub indexed_pb: usize,
    pub indexed_pr: usize,
    pub a: u64,
    pub b: i64,
    pub c: i64,
    pub d: i64,
}

/// Every value of the block fits in its field of the code word.
pub open spec fn packable(block: ImageCos) -> bool {
    &&& block.a < 512
    &&& -16 <= block.b < 16
    &&& -16 <= block.c < 16
    &&& -16 <= block.d < 16
    &&& block.indexed_pb < 16
    &&& block.indexed_pr < 16
}

/// The code word of a block: each value in its field, all other bits clear.
pub open spec fn word_of(block: ImageCos) -> u64 {
    (block.a << 23u64) | (twos_complement(block.b, 5) << 18u64) | (twos_complement(block.c, 5)
        << 13u64) | (twos_complement(block.d, 5) << 8u64) | ((block.indexed_pb as u64) << 4u64) | (
    block.indexed_pr as u64)
}

/// The block that a code word stands for.
pub open spec fn block_of(word: u64) -> ImageCos {
    ImageCos {
        indexed_pb: field(word, 4, 4) as usize,
        indexed_pr: field(word, 4, 0) as usize,
        a: field(word, 9, 23),
        b: signed_value(field(word, 5, 18), 5) as i64,
        c: signed_value(field(word, 5, 13), 5) as i64,
        d: signed_value(field(word, 5, 8), 5) as i64,
    }
}

proof fn lemma_field_constants()
    ensures
        low_mask(9) == 511,
        low_mask(5) == 31,
        low_mask(4) == 15,
        half_range(5) == 16,
{
    assert(((1u64 << 9u64) - 1) as u64 == 511u64 && ((1u64 << 5u64) - 1) as u64 == 31u64 && ((
    1u64 << 4u64) - 1) as u64 == 15u64 && (1u64 << 4u64) == 16u64) by (bit_vector);
}

proof fn lemma_layout(a: u64, b: u64, c: u64, d: u64, p: u64, q: u64)
    by (bit_vector)
    requires
        a < 512,
        b < 32,
        c < 32,
        d < 32,
        p < 16,
        q < 16,
    ensures
        (a << 23u64) + (b << 18u64) + (c << 13u64) + (d << 8u64) + (p << 4u64) + q == (a << 23u64)
            | (b << 18u64) | (c << 13u64) | (d << 8u64) | (p << 4u64) | q,
        ((a << 23u64) | (b << 18u64) | (c << 13u64) | (d << 8u64) | (p << 4u64) | q)
            < 0x1_0000_0000u64,
        (((a << 23u64) | (b << 18u64) | (c << 13u64) | (d << 8u64) | (p << 4u64) | q) >> 23u64)
            & 511 == a,
        (((a << 23u64) | (b << 18u64) | (c << 13u64) | (d << 8u64) | (p << 4u64) | q) >> 18u64)
            & 31 == b,
        (((a << 23u64) | (b << 18u64) | (c << 13u64) | (d << 8u64) | (p << 4u64) | q) >> 13u64)
            & 31 == c,
        (((a << 23u64) | (b << 18u64) | (c << 13u64) | (d << 8u64) | (p << 4u64) | q) >> 8u64)
            & 31 == d,
        (((a << 23u64) | (b << 18u64) | (c << 13u64) | (d << 8u64) | (p << 4u64) | q) >> 4u64)
            & 15 == p,
        (((a << 23u64) | (b << 18u64) | (c << 13u64) | (d << 8u64) | (p << 4u64) | q) >> 0u64)
            & 15 == q,
        (0u64 & !(511u64 << 23u64)) | (a << 23u64) == a << 23u64,
        (0u64 & !(31u64 << 18u64)) | (b << 18u64) == b << 18u64,
        (0u64 & !(31u64 << 13u64)) | (c << 13u64) == c << 13u64,
        (0u64 & !(31u64 << 8u64)) | (d << 8u64) == d << 8u64,
        (0u64 & !(15u64 << 4u64)) | (p << 4u64) == p << 4u64,
        (0u64 & !(15u64 << 0u64)) | (q << 0u64) == q,
{
}

proof fn lemma_fields_rebuild_word(w: u64)
    by (bit_vector)
    requires
        w < 0x1_0000_0000u64,
    ensures
        (((w >> 23u64) & 511) << 23u64) | (((w >> 18u64) & 31) << 18u64) | (((w >> 13u64) & 31)
            << 13u64) | (((w >> 8u64) & 31) << 8u64) | (((w >> 4u64) & 15) << 4u64) | ((w >> 0u64)
            & 15) == w,
        (w >> 23u64) & 511 < 512,
        (w >> 18u64) & 31 < 32,
        (w >> 13u64) & 31 < 32,
        (w >> 8u64) & 31 < 32,
        (w >> 4u64) & 15 < 16,
        (w >> 0u64) & 15 < 16,
{
}

proof fn lemma_signed_field(v: i64)
    requires
        -16 <= v < 16,
    ensures
        twos_complement(v, 5) < 32,
        signed_value(twos_complement(v, 5), 5) == v,
        fits_signed(v, 5),
{
    lemma_field_constants();
}

proof fn lemma_unsigned_field(u: u64)
    requires
        u < 32,
    ensures
        -16 <= signed_value(u, 5) < 16,
        twos_complement(signed_value(u, 5) as i64, 5) == u,
{
    lemma_field_constants();
}

/// The code word of a block whose values fit their fields.
pub fn pack_word(block: ImageCos) -> (word: u64)
    requires
        packable(block),
    ensures
        word == word_of(block),
        word < 0x1_0000_0000u64,
        block_of(word) == block,
        field(word, 9, 23) == block.a,
        field(word, 5, 18) == twos_complement(block.b, 5),
        field(word, 5, 13) == twos_complement(block.c, 5),
        field(word, 5, 8) == twos_complement(block.d, 5),
        field(word, 4, 4) == block.indexed_pb,
        field(word, 4, 0) == block.indexed_pr,
        signed_value(field(word, 5, 18), 5) == block.b,
        signed_value(field(word, 5, 13), 5) == block.c,
        signed_value(field(word, 5, 8), 5) == block.d,
{
    proof {
        lemma_field_constants();
        lemma_signed_field(block.b);
        lemma_signed_field(block.c);
        lemma_signed_field(block.d);
        lemma_fits_unsigned_is_le_mask(block.a, 9);
        lemma_fits_unsigned_is_le_mask(block.indexed_pb as u64, 4);
        lemma_fits_unsigned_is_le_mask(block.indexed_pr as u64, 4);
        lemma_layout(
            block.a,
            twos_complement(block.b, 5),
            twos_complement(block.c, 5),
            twos_complement(block.d, 5),
            block.indexed_pb as u64,
            block.indexed_pr as u64,
        );
    }
    let word: u64 = 0;
    let new_word_a = newu(word, 9, 23, block.a).unwrap();
    let new_word_b = news(word, 5, 18, block.b).unwrap();
    let new_word_c = news(word, 5, 13, block.c).unwrap();
    let new_word_d = news(word, 5, 8, block.d).unwrap();
    let new_word_pb = newu(word, 4, 4, block.indexed_pb as u64).unwrap();
    let new_word_pr = newu(word, 4, 0, block.indexed_pr as u64).unwrap();
    let packed_word = new_word_a + new_word_b + new_word_c + new_word_d + new_word_pb + new_word_pr;
    packed_word
}

/// The block that a code word stands for.
pub fn unpack_word(word: u64) -> (block: ImageCos)
    ensures
        block == block_of(word),
        packable(block),
        block.a == field(word, 9, 23),
        block.b == signed_value(field(word, 5, 18), 5),
        block.c == signed_value(field(word, 5, 13), 5),
        block.d == signed_value(field(word, 5, 8), 5),
        block.indexed_pb == field(word, 4, 4),
        block.indexed_pr == field(word, 4, 0),
{
    proof {
        lemma_field_constants();
        assert((word >> 23u64) & 511 < 512 && (word >> 18u64) & 31 < 32 && (word >> 13u64) & 31
            < 32 && (word >> 8u64) & 31 < 32 && (word >> 4u64) & 15 < 16 && (word >> 0u64) & 15
            < 16) by (bit_vector);
        lemma_unsigned_field(field(word, 5, 18));
        lemma_unsigned_field(field(word, 5, 13));
        lemma_unsigned_field(field(word, 5, 8));
    }
    let unpack_a = getu(word, 9, 23);
    let unpack_b = gets(word, 5, 18);
    let unpack_c = gets(word, 5, 13);
    let unpack_d = gets(word, 5, 8);
    let unpack_pb = getu(word, 4, 4);
    let unpack_pr = getu(word, 4, 0);
    ImageCos {
        a: unpack_a,
        b: unpack_b,
        c: unpack_c,
        d: unpack_d,
        indexed_pb: unpack_pb as usize,
        indexed_pr: unpack_pr as usize,
    }
}

/// The code words of all blocks, in the same order and with the same
/// width and height.
pub fn convert_to_words(array_2x2: Array2<ImageCos>) -> (words: Array2<u64>)
    requires
        forall|i: int| 0 <= i < array_2x2.v@.len() ==> packable(#[trigger] array_2x2.v@[i]),
    ensures
        words.width == array_2x2.width,
        words.height == array_2x2.height,
        words.v@.len() == array_2x2.v@.len(),
        forall|i: int| 0 <= i < words.v@.len() ==> #[trigger] words.v@[i] == word_of(array_2x2.v@[i]),
        forall|i: int|
            0 <= i < words.v@.len() ==> {
                &&& #[trigger] words.v@[i] < 0x1_0000_0000u64
                &&& field(words.v@[i], 9, 23) == array_2x2.v@[i].a
                &&& field(words.v@[i], 5, 18) == twos_complement(array_2x2.v@[i].b, 5)
                &&& field(words.v@[i], 5, 13) == twos_complement(array_2x2.v@[i].c, 5)
                &&& field(words.v@[i], 5, 8) == twos_complement(array_2x2.v@[i].d, 5)
                &&& field(words.v@[i], 4, 4) == array_2x2.v@[i].indexed_pb
                &&& field(words.v@[i], 4, 0) == array_2x2.v@[i].indexed_pr
            },
{
    let mut word_vec: Vec<u64> = Vec::new();
    let mut i: usize = 0;
    while i < array_2x2.v.len()
        invariant
            i <= array_2x2.v@.len(),
            word_vec@.len() == i,
            forall|k: int| 0 <= k < array_2x2.v@.len() ==> packable(#[trigger] array_2x2.v@[k]),
            forall|k: int| 0 <= k < i ==> #[trigger] word_vec@[k] == word_of(array_2x2.v@[k]),
        decreases array_2x2.v@.len() - i,
    {
        let current_word = pack_word(array_2x2.v[i]);
        word_vec.push(current_word);
        i += 1;
    }
    proof {
        assert forall|k: int| 0 <= k < word_vec@.len() implies {
            &&& #[trigger] word_vec@[k] < 0x1_0000_0000u64
            &&& field(word_vec@[k], 9, 23) == array_2x2.v@[k].a
            &&& field(word_vec@[k], 5, 18) == twos_complement(array_2x2.v@[k].b, 5)
            &&& field(word_vec@[k], 5, 13) == twos_complement(array_2x2.v@[k].c, 5)
            &&& field(word_vec@[k], 5, 8) == twos_complement(array_2x2.v@[k].d, 5)
            &&& field(word_vec@[k], 4, 4) == array_2x2.v@[k].indexed_pb
            &&& field(word_vec@[k], 4, 0) == array_2x2.v@[k].indexed_pr
        } by {
            lemma_code_word_layout(array_2x2.v@[k]);
        }
    }
    Array2 { v: word_vec, width: array_2x2.width, height: array_2x2.height }
}

/// The blocks of all code words, in the same order and with the same width
/// and height.
pub fn word_to_cos(word_array: Array2<u64>) -> (blocks: Array2<ImageCos>)
    ensures
        blocks.width == word_array.width,
        blocks.height == word_array.height,
        blocks.v@.len() == word_array.v@.len(),
        forall|i: int| 0 <= i < blocks.v@.len() ==> #[trigger] blocks.v@[i] == block_of(word_array.v@[i]),
        forall|i: int|
            0 <= i < blocks.v@.len() ==> {
                &&& (#[trigger] blocks.v@[i]).a == field(word_array.v@[i], 9, 23)
                &&& blocks.v@[i].b == signed_value(field(word_array.v@[i], 5, 18), 5)
                &&& blocks.v@[i].c == signed_value(field(word_array.v@[i], 5, 13), 5)
                &&& blocks.v@[i].d == signed_value(field(word_array.v@[i], 5, 8), 5)
                &&& blocks.v@[i].indexed_pb == field(word_array.v@[i], 4, 4)
                &&& blocks.v@[i].indexed_pr == field(word_array.v@[i], 4, 0)
            },
{
    let mut cos_vec: Vec<ImageCos> = Vec::new();
    let mut i: usize = 0;
    while i < word_array.v.len()
        invariant
            i <= word_array.v@.len(),
            cos_vec@.len() == i,
            forall|k: int| 0 <= k < i ==> #[trigger] cos_vec@[k] == block_of(word_array.v@[k]),
        decreases word_array.v@.len() - i,
    {
        let current_block = unpack_word(word_array.v[i]);
        cos_vec.push(current_block);
        i += 1;
    }
    proof {
        assert forall|k: int| 0 <= k < cos_vec@.len() implies {
            &&& (#[trigger] cos_vec@[k]).a == field(word_array.v@[k], 9, 23)
            &&& cos_vec@[k].b == signed_value(field(word_array.v@[k], 5, 18), 5)
            &&& cos_vec@[k].c == signed_value(field(word_array.v@[k], 5, 13), 5)
            &&& cos_vec@[k].d == signed_value(field(word_array.v@[k], 5, 8), 5)
            &&& cos_vec@[k].indexed_pb == field(word_array.v@[k], 4, 4)
            &&& cos_vec@[k].indexed_pr == field(word_array.v@[k], 4, 0)
        } by {
            lemma_block_fields(word_array.v@[k]);
        }
    }
    Array2 { v: cos_vec, width: word_array.width, height: word_array.height }
}

/// Unpacking the code word of a block gives the block back.
pub proof fn lemma_unpack_pack(block: ImageCos)
    requires
        packable(block),
    ensures
        block_of(word_of(block)) == block,
{
    lemma_field_constants();
    lemma_signed_field(block.b);
    lemma_signed_field(block.c);
    lemma_signed_field(block.d);
    lemma_layout(
        block.a,
        twos_complement(block.b, 5),
        twos_complement(block.c, 5),
        twos_complement(block.d, 5),
        block.indexed_pb as u64,
        block.indexed_pr as u64,
    );
}

/// Packing the block of a 32-bit word gives the word back.
pub proof fn lemma_pack_unpack(word: u64)
    requires
        word < 0x1_0000_0000u64,
    ensures
        packable(block_of(word)),
        word_of(block_of(word)) == word,
{
    lemma_field_constants();
    lemma_fields_rebuild_word(word);
    lemma_unsigned_field(field(word, 5, 18));
    lemma_unsigned_field(field(word, 5, 13));
    lemma_unsigned_field(field(word, 5, 8));
}

/// A code word uses only its low 32 bits.
pub proof fn lemma_word_of_fits(block: ImageCos)
    requires
        packable(block),
    ensures
        word_of(block) < 0x1_0000_0000u64,
{
    lemma_signed_field(block.b);
    lemma_signed_field(block.c);
    lemma_signed_field(block.d);
    lemma_layout(
        block.a,
        twos_complement(block.b, 5),
        twos_complement(block.c, 5),
        twos_complement(block.d, 5),
        block.indexed_pb as u64,
        block.indexed_pr as u64,
    );
}

/// The code word of a block holds each value at its own fixed field, the
/// same whatever the other values are: `a` in the 9 bits from bit 23, `b`,
/// `c` and `d` in two's complement in the 5 bits from bits 18, 13 and 8,
/// and the chroma indices in the 4 bits from bits 4 and 0; no bit at or
/// above bit 32 is set.
pub proof fn lemma_code_word_layout(block: ImageCos)
    requires
        packable(block),
    ensures
        word_of(block) < 0x1_0000_0000u64,
        field(word_of(block), 9, 23) == block.a,
        field(word_of(block), 5, 18) == twos_complement(block.b, 5),
        field(word_of(block), 5, 13) == twos_complement(block.c, 5),
        field(word_of(block), 5, 8) == twos_complement(block.d, 5),
        field(word_of(block), 4, 4) == block.indexed_pb,
        field(word_of(block), 4, 0) == block.indexed_pr,
        signed_value(field(word_of(block), 5, 18), 5) == block.b,
        signed_value(field(word_of(block), 5, 13), 5) == block.c,
        signed_value(field(word_of(block), 5, 8), 5) == block.d,
{
    lemma_field_constants();
    lemma_signed_field(block.b);
    lemma_signed_field(block.c);
    lemma_signed_field(block.d);
    lemma_layout(
        block.a,
        twos_complement(block.b, 5),
        twos_complement(block.c, 5),
        twos_complement(block.d, 5),
        block.indexed_pb as u64,
        block.indexed_pr as u64,
    );
}

/// The block of any code word reads each value from its own fixed field:
/// `a` from the 9 bits from bit 23, `b`, `c` and `d` in two's complement
/// from the 5 bits from bits 18, 13 and 8, and the chroma indices from the
/// 4 bits from bits 4 and 0.
pub proof fn lemma_block_fields(word: u64)
    ensures
        block_of(word).a == field(word, 9, 23),
        block_of(word).b == signed_value(field(word, 5, 18), 5),
        block_of(word).c == signed_value(field(word, 5, 13), 5),
        block_of(word).d == signed_value(field(word, 5, 8), 5),
        block_of(word).indexed_pb == field(word, 4, 4),
        block_of(word).indexed_pr == field(word, 4, 0),
{
    lemma_field_constants();
    assert((word >> 23u64) & 511 < 512 && (word >> 18u64) & 31 < 32 && (word >> 13u64) & 31 < 32
        && (word >> 8u64) & 31 < 32 && (word >> 4u64) & 15 < 16 && (word >> 0u64) & 15 < 16)
        by (bit_vector);
    lemma_unsigned_field(field(word, 5, 18));
    lemma_unsigned_field(field(word, 5, 13));
    lemma_unsigned_field(field(word, 5, 8));
}

} // verus!
