//! Fields of bits inside a 64-bit word: a field is `width` consecutive bits
//! whose least significant bit is bit `lsb` of the word.

use vstd::prelude::*;

verus! {

/// The word whose low `width` bits are set and whose other bits are clear.
pub open spec fn low_mask(width: u64) -> u64 {
    if width >= 64 {
        u64::MAX
    } else {
        ((1u64 << width) - 1) as u64
    }
}

/// Half the number of values of a `width`-bit field: 2 to the `width - 1`.
pub open spec fn half_range(width: u64) -> int {
    if width == 0 {
        0
    } else {
        (1u64 << ((width - 1) as u64)) as int
    }
}

/// `n` is less than 2 to the `width`.
pub open spec fn fits_unsigned(n: u64, width: u64) -> bool {
    width >= 64 || n < (1u64 << width)
}

/// `n` lies in the two's-complement range of `width` bits, from minus 2 to
/// the `width - 1` up to but excluding 2 to the `width - 1`; only zero fits
/// in zero bits.
pub open spec fn fits_signed(n: i64, width: u64) -> bool {
    if width == 0 {
        n == 0
    } else {
        -half_range(width) <= n < half_range(width)
    }
}

/// The `width`-bit field of `word` whose least significant bit is `lsb`,
/// as an unsigned number.
pub open spec fn field(word: u64, width: u64, lsb: u64) -> u64 {
    if width == 0 {
        0
    } else {
        (word >> lsb) & low_mask(width)
    }
}

/// The signed number that the `width` bits of `u` stand for in two's complement.
pub open spec fn signed_value(u: u64, width: u64) -> int {
    if width > 0 && u >= half_range(width) {
        u - 2 * half_range(width)
    } else {
        u as int
    }
}

/// The `width` bits that stand for `n` in two's complement.
pub open spec fn twos_complement(n: i64, width: u64) -> u64 {
    if n < 0 {
        (n + 2 * half_range(width)) as u64
    } else {
        n as u64
    }
}

/// `word` with its `width`-bit field at `lsb` replaced by `value`.
pub open spec fn replace_field(word: u64, width: u64, lsb: u64, value: u64) -> u64 {
    if width == 0 {
        word
    } else {
        (word & !(low_mask(width) << lsb)) | (value << lsb)
    }
}

proof fn lemma_low_mask_below(w: u64)
    by (bit_vector)
    requires
        w < 64,
    ensures
        (1u64 << w) >= 1,
        ((1u64 << w) - 1) as u64 == (1u64 << w) - 1,
{
}

proof fn lemma_and_mask_le(x: u64, m: u64)
    by (bit_vector)
    ensures
        x & m <= m,
{
}

pub(crate) proof fn lemma_fits_unsigned_is_le_mask(n: u64, w: u64)
    requires
        w <= 64,
    ensures
        fits_unsigned(n, w) <==> n <= low_mask(w),
{
    if w < 64 {
        lemma_low_mask_below(w);
    }
}

proof fn lemma_mask_is_twice_half(w: u64)
    requires
        1 <= w <= 64,
    ensures
        low_mask(w) as int == 2 * half_range(w) - 1,
        1 <= half_range(w) <= 0x8000_0000_0000_0000,
{
    let h = (w - 1) as u64;
    if w < 64 {
        assert((1u64 << h) * 2 == (1u64 << w) && (1u64 << h) >= 1 && (1u64 << h) <= 0x4000_0000_0000_0000u64) by (bit_vector)
            requires
                h + 1 == w,
                w < 64,
        ;
        lemma_low_mask_below(w);
    } else {
        assert(1u64 << 63u64 == 0x8000_0000_0000_0000u64) by (bit_vector);
    }
}

proof fn lemma_field_of_replaced(word: u64, w: u64, lsb: u64, v: u64, m: u64)
    by (bit_vector)
    requires
        1 <= w <= 64,
        w + lsb <= 64,
        m == (if w >= 64 { u64::MAX } else { ((1u64 << w) - 1) as u64 }),
        v <= m,
    ensures
        (((word & !(m << lsb)) | (v << lsb)) >> lsb) & m == v,
{
}

proof fn lemma_other_field_of_replaced(
    word: u64,
    w: u64,
    lsb: u64,
    v: u64,
    m: u64,
    w2: u64,
    lsb2: u64,
    m2: u64,
)
    by (bit_vector)
    requires
        1 <= w <= 64,
        w + lsb <= 64,
        1 <= w2 <= 64,
        w2 + lsb2 <= 64,
        lsb2 >= lsb + w || lsb2 + w2 <= lsb,
        m == (if w >= 64 { u64::MAX } else { ((1u64 << w) - 1) as u64 }),
        m2 == (if w2 >= 64 { u64::MAX } else { ((1u64 << w2) - 1) as u64 }),
        v <= m,
    ensures
        (((word & !(m << lsb)) | (v << lsb)) >> lsb2) & m2 == (word >> lsb2) & m2,
{
}

/// The word whose low `width` bits are set.
fn mask(width: u64) -> (m: u64)
    requires
        width <= 64,
    ensures
        m == low_mask(width),
{
    if width >= 64 {
        u64::MAX
    } else {
        proof {
            lemma_low_mask_below(width);
        }
        (1u64 << width) - 1
    }
}

/// Whether `n` can be stored in a field of `width` bits.
pub fn fitsu(n: u64, width: u64) -> (r: bool)
    requires
        width <= 64,
    ensures
        r == fits_unsigned(n, width),
{
    proof {
        lemma_fits_unsigned_is_le_mask(n, width);
    }
    n <= mask(width)
}

/// Whether `n` can be stored in two's complement in a field of `width` bits.
pub fn fitss(n: i64, width: u64) -> (r: bool)
    requires
        width <= 64,
    ensures
        r == fits_signed(n, width),
{
    if width == 0 {
        n == 0
    } else {
        let half: u64 = 1u64 << (width - 1);
        proof {
            lemma_mask_is_twice_half(width);
        }
        let h: i128 = half as i128;
        -h <= n as i128 && (n as i128) < h
    }
}

/// The unsigned value of the `width`-bit field of `word` at `lsb`.
pub fn getu(word: u64, width: u64, lsb: u64) -> (r: u64)
    requires
        width <= 64,
        width + lsb <= 64,
    ensures
        r == field(word, width, lsb),
{
    if width == 0 {
        0
    } else {
        (word >> lsb) & mask(width)
    }
}

/// The signed value of the `width`-bit field of `word` at `lsb`, read in
/// two's complement.
pub fn gets(word: u64, width: u64, lsb: u64) -> (r: i64)
    requires
        width <= 64,
        width + lsb <= 64,
    ensures
        r == signed_value(field(word, width, lsb), width),
{
    let u = getu(word, width, lsb);
    if width == 0 {
        return 0;
    }
    proof {
        lemma_mask_is_twice_half(width);
        lemma_and_mask_le(word >> lsb, low_mask(width));
    }
    let half: u64 = 1u64 << (width - 1);
    if u >= half {
        (u as i128 - 2 * (half as i128)) as i64
    } else {
        u as i64
    }
}

/// `word` with its `width`-bit field at `lsb` set to `value`, or `None`
/// when `value` does not fit in `width` bits.
pub fn newu(word: u64, width: u64, lsb: u64, value: u64) -> (r: Option<u64>)
    requires
        width <= 64,
        width + lsb <= 64,
    ensures
        r == (if fits_unsigned(value, width) {
            Some(replace_field(word, width, lsb, value))
        } else {
            None
        }),
{
    if !fitsu(value, width) {
        return None;
    }
    if width == 0 {
        return Some(word);
    }
    let m = mask(width);
    Some((word & !(m << lsb)) | (value << lsb))
}

/// `word` with its `width`-bit field at `lsb` set to the two's-complement
/// bits of `value`, or `None` when `value` does not fit in `width` bits.
pub fn news(word: u64, width: u64, lsb: u64, value: i64) -> (r: Option<u64>)
    requires
        width <= 64,
        width + lsb <= 64,
    ensures
        r == (if fits_signed(value, width) {
            Some(replace_field(word, width, lsb, twos_complement(value, width)))
        } else {
            None
        }),
{
    if !fitss(value, width) {
        return None;
    }
    if width == 0 {
        return Some(word);
    }
    proof {
        lemma_mask_is_twice_half(width);
    }
    let half: u64 = 1u64 << (width - 1);
    let bits: u64 = if value < 0 {
        (value as i128 + 2 * (half as i128)) as u64
    } else {
        value as u64
    };
    proof {
        lemma_fits_unsigned_is_le_mask(bits, width);
    }
    newu(word, width, lsb, bits)
}

/// Reading back a field gives the value that was stored in it.
pub proof fn lemma_getu_newu(word: u64, width: u64, lsb: u64, value: u64)
    requires
        width <= 64,
        width + lsb <= 64,
        fits_unsigned(value, width),
    ensures
        field(replace_field(word, width, lsb, value), width, lsb) == value,
{
    lemma_fits_unsigned_is_le_mask(value, width);
    if width > 0 {
        lemma_field_of_replaced(word, width, lsb, value, low_mask(width));
    } else {
        assert(1u64 << 0u64 == 1u64) by (bit_vector);
    }
}

/// Storing a value in one field leaves every field that does not overlap
/// it as it was.
pub proof fn lemma_newu_keeps_other_fields(
    word: u64,
    width: u64,
    lsb: u64,
    value: u64,
    width2: u64,
    lsb2: u64,
)
    requires
        width <= 64,
        width + lsb <= 64,
        width2 <= 64,
        width2 + lsb2 <= 64,
        fits_unsigned(value, width),
        lsb2 >= lsb + width || lsb2 + width2 <= lsb,
    ensures
        field(replace_field(word, width, lsb, value), width2, lsb2) == field(word, width2, lsb2),
{
    lemma_fits_unsigned_is_le_mask(value, width);
    if width > 0 && width2 > 0 {
        lemma_other_field_of_replaced(
            word,
            width,
            lsb,
            value,
            low_mask(width),
            width2,
            lsb2,
            low_mask(width2),
        );
    }
}

/// Reading back a signed field gives the signed value that was stored in it.
pub proof fn lemma_gets_news(word: u64, width: u64, lsb: u64, value: i64)
    requires
        width <= 64,
        width + lsb <= 64,
        fits_signed(value, width),
    ensures
        signed_value(field(replace_field(word, width, lsb, twos_complement(value, width)), width, lsb), width) == value,
{
    if width > 0 {
        lemma_mask_is_twice_half(width);
        let bits = twos_complement(value, width);
        lemma_fits_unsigned_is_le_mask(bits, width);
        lemma_getu_newu(word, width, lsb, bits);
    }
}

/// A field read as an unsigned number is the word divided by 2 to the
/// `lsb`, rounded down, modulo 2 to the `width`.
pub proof fn lemma_field_is_div_mod(word: u64, width: u64, lsb: u64)
    requires
        1 <= width <= 64,
        width + lsb <= 64,
    ensures
        field(word, width, lsb) as nat == (word as nat / vstd::arithmetic::power2::pow2(lsb as nat))
            % vstd::arithmetic::power2::pow2(width as nat),
{
    vstd::bits::lemma_u64_shr_is_div(word, lsb);
    let x = word >> lsb;
    if width < 64 {
        vstd::bits::lemma_u64_pow2_no_overflow(width as nat);
        vstd::bits::lemma_u64_shl_is_mul(1, width);
        lemma_low_mask_below(width);
        assert(low_mask(width) == vstd::bits::low_bits_mask(width as nat) as u64);
        vstd::bits::lemma_u64_low_bits_mask_is_mod(x, width as nat);
    } else {
        assert(x & u64::MAX == x) by (bit_vector);
        vstd::arithmetic::power2::lemma2_to64();
        vstd::arithmetic::power2::lemma2_to64_rest();
        vstd::arithmetic::div_mod::lemma_small_mod(x as nat, vstd::arithmetic::power2::pow2(64));
    }
}

/// The two's-complement bits of a number that fits in `width` bits are the
/// number modulo 2 to the `width`, and they read back as the number.
pub proof fn lemma_twos_complement_is_mod(n: i64, width: u64)
    requires
        1 <= width <= 64,
        fits_signed(n, width),
    ensures
        twos_complement(n, width) as int == (n as int) % (vstd::arithmetic::power2::pow2(width as nat) as int),
        signed_value(twos_complement(n, width), width) == n,
{
    let h = (width - 1) as u64;
    vstd::bits::lemma_u64_pow2_no_overflow(h as nat);
    vstd::bits::lemma_u64_shl_is_mul(1, h);
    assert(half_range(width) == vstd::arithmetic::power2::pow2(h as nat));
    vstd::arithmetic::power2::lemma_pow2_unfold(width as nat);
    let m = vstd::arithmetic::power2::pow2(width as nat) as int;
    assert(m == 2 * half_range(width));
    lemma_mask_is_twice_half(width);
    if n < 0 {
        vstd::arithmetic::div_mod::lemma_fundamental_div_mod_converse(n as int, m, -1, n + m);
    } else {
        vstd::arithmetic::div_mod::lemma_fundamental_div_mod_converse(n as int, m, 0, n as int);
    }
}

} // verus!
