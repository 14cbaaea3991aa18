//! The compressed image file: a two-line text header that gives the width
//! and height of the image in pixels, then the code word of every 2x2 block
//! in row-major order of blocks, each as the four bytes of its low 32 bits,
//! most significant byte first.
//!
//! ```text
//! Compressed image format 2
//! <width> <height>
//! <code words>
//! ```

use vstd::prelude::*;
use crate::array2::Array2;
use crate::codeword::{block_of, lemma_unpack_pack, packable, word_of, ImageCos};

verus! {

/// Why the bytes of a compressed image could not be read.
#[derive(Clone, Copy, Debug, PartialEq, Eq, Structural)]
pub enum DecodeError {
    /// The bytes do not start with a header.
    BadHeader,
    /// The bytes after the header do not split into 4-byte words.
    PartialWord,
    /// The number of words is not the number of 2x2 blocks of the image.
    SizeMismatch,
}

/// The four bytes of the low 32 bits of `w`, most significant first.
pub open spec fn be_bytes(w: u64) -> Seq<u8> {
    seq![
        ((w >> 24u64) & 0xff) as u8,
        ((w >> 16u64) & 0xff) as u8,
        ((w >> 8u64) & 0xff) as u8,
        (w & 0xff) as u8,
    ]
}

/// The word whose low 32 bits are the four bytes `b`, most significant first.
pub open spec fn be_word(b: Seq<u8>) -> u64 {
    ((b[0] as u64) << 24u64) | ((b[1] as u64) << 16u64) | ((b[2] as u64) << 8u64) | (b[3] as u64)
}

/// The bytes of the words, four per word, in order.
pub open spec fn words_bytes(ws: Seq<u64>) -> Seq<u8>
    decreases ws.len(),
{
    if ws.len() == 0 {
        Seq::empty()
    } else {
        words_bytes(ws.drop_last()) + be_bytes(ws.last())
    }
}

/// The words that a sequence of bytes holds, four bytes per word, in order.
pub open spec fn bytes_words(bs: Seq<u8>) -> Seq<u64>
    decreases bs.len(),
{
    if bs.len() < 4 {
        Seq::empty()
    } else {
        bytes_words(bs.subrange(0, bs.len() - 4)).push(be_word(bs.subrange(bs.len() - 4, bs.len() as int)))
    }
}

/// What the bytes of a compressed image hold: the width and height of the
/// array of blocks, half those of the image in the header, and the code
/// words, or the reason that they hold none.
pub open spec fn decoded(s: Seq<u8>) -> Result<(u32, u32, Seq<u64>), DecodeError> {
    match parsed_header(s) {
        None => Err(DecodeError::BadHeader),
        Some((w, h, n)) => {
            let payload = s.subrange(n as int, s.len() as int);
            if payload.len() % 4 != 0 {
                Err(DecodeError::PartialWord)
            } else if payload.len() / 4 != (w / 2) * (h / 2) {
                Err(DecodeError::SizeMismatch)
            } else {
                Ok(((w / 2) as u32, (h / 2) as u32, bytes_words(payload)))
            }
        },
    }
}

/// The bytes of a compressed image whose blocks form a `width` by `height`
/// array with the given code words.
pub open spec fn encoded(width: usize, height: usize, words: Seq<u64>) -> Seq<u8> {
    header_bytes((width * 2) as u32, (height * 2) as u32) + words_bytes(words)
}

/// The first line of the header, with its line break.
pub open spec fn magic() -> Seq<u8> {
    seq![67u8, 111, 109, 112, 114, 101, 115, 115, 101, 100, 32, 105, 109, 97, 103, 101, 32, 102,
        111, 114, 109, 97, 116, 32, 50, 10]
}

/// The ASCII code of a decimal digit.
pub open spec fn is_digit(b: u8) -> bool {
    48 <= b <= 57
}

/// The decimal digits of `n`, most significant first, without leading zeros.
pub open spec fn decimal(n: nat) -> Seq<u8>
    decreases n,
{
    if n < 10 {
        seq![(48 + n) as u8]
    } else {
        decimal(n / 10).push((48 + n % 10) as u8)
    }
}

/// The number that a string of decimal digits stands for.
pub open spec fn digits_value(s: Seq<u8>) -> nat
    decreases s.len(),
{
    if s.len() == 0 {
        0
    } else {
        digits_value(s.drop_last()) * 10 + (s.last() - 48) as nat
    }
}

/// The number of decimal digits in `s` from position `i` on, up to the
/// first byte that is not one.
pub open spec fn digit_run(s: Seq<u8>, i: int) -> nat
    decreases s.len() - i,
{
    if 0 <= i < s.len() && is_digit(s[i]) {
        1 + digit_run(s, i + 1)
    } else {
        0
    }
}

/// The header of an image of `width` by `height` pixels.
pub open spec fn header_bytes(width: u32, height: u32) -> Seq<u8> {
    magic() + decimal(width as nat) + seq![32u8] + decimal(height as nat) + seq![10u8]
}

/// What a header at the start of `s` says: the width, the height and the
/// length of the header. There is one when `s` starts with the first line,
/// then a run of digits, one space, a run of digits and a line break, and
/// both numbers are at most `u32::MAX`.
pub open spec fn parsed_header(s: Seq<u8>) -> Option<(u32, u32, nat)> {
    let m = magic().len() as int;
    let n1 = digit_run(s, m) as int;
    let i1 = m + n1;
    let n2 = digit_run(s, i1 + 1) as int;
    let i2 = i1 + 1 + n2;
    if s.len() >= m && s.subrange(0, m) == magic() && n1 > 0 && i1 < s.len() && s[i1] == 32 && n2
        > 0 && i2 < s.len() && s[i2] == 10 && digits_value(s.subrange(m, i1)) <= u32::MAX
        && digits_value(s.subrange(i1 + 1, i2)) <= u32::MAX {
        Some(
            (
                digits_value(s.subrange(m, i1)) as u32,
                digits_value(s.subrange(i1 + 1, i2)) as u32,
                (i2 + 1) as nat,
            ),
        )
    } else {
        None
    }
}

/// The first line of the header.
fn magic_bytes() -> (m: Vec<u8>)
    ensures
        m@ == magic(),
{
    let m: Vec<u8> = vec![67u8, 111, 109, 112, 114, 101, 115, 115, 101, 100, 32, 105, 109, 97, 103, 101, 32, 102,
        111, 114, 109, 97, 116, 32, 50, 10];
    assert(m@ =~= magic());
    m
}

/// Appends the decimal digits of `n` to `out`.
fn push_decimal(out: &mut Vec<u8>, n: u32)
    ensures
        final(out)@ == old(out)@ + decimal(n as nat),
    decreases n,
{
    if n >= 10 {
        push_decimal(out, n / 10);
    }
    out.push(48 + (n % 10) as u8);
    proof {
        if n >= 10 {
            assert(old(out)@ + decimal(n as nat) =~= old(out)@ + decimal((n / 10) as nat) + seq![(48
                + n % 10) as u8]);
        } else {
            assert(old(out)@ + decimal(n as nat) =~= old(out)@ + seq![(48 + n % 10) as u8]);
        }
    }
}

/// The header of an image of `width` by `height` pixels.
pub fn compressed_header(width: u32, height: u32) -> (header: Vec<u8>)
    ensures
        header@ == header_bytes(width, height),
{
    let mut header = magic_bytes();
    push_decimal(&mut header, width);
    header.push(32);
    push_decimal(&mut header, height);
    header.push(10);
    proof {
        assert(header@ =~= header_bytes(width, height));
    }
    header
}

/// Reads the run of digits that starts at `start`; gives its end and its
/// value when the value is at most `u32::MAX`.
fn parse_number(s: &[u8], start: usize) -> (r: (usize, Option<u32>))
    requires
        start <= s@.len(),
    ensures
        r.0 == start + digit_run(s@, start as int),
        r.0 <= s@.len(),
        r.1 == (if digits_value(s@.subrange(start as int, r.0 as int)) <= u32::MAX {
            Some(digits_value(s@.subrange(start as int, r.0 as int)) as u32)
        } else {
            None
        }),
{
    let mut i = start;
    let mut acc: u64 = 0;
    while i < s.len() && 48 <= s[i] && s[i] <= 57
        invariant
            start <= i <= s@.len(),
            digit_run(s@, start as int) == (i - start) + digit_run(s@, i as int),
            acc <= u32::MAX ==> acc == digits_value(s@.subrange(start as int, i as int)),
            acc > u32::MAX ==> digits_value(s@.subrange(start as int, i as int)) > u32::MAX,
        decreases s@.len() - i,
    {
        proof {
            assert(s@.subrange(start as int, i + 1).drop_last() =~= s@.subrange(start as int, i as int));
        }
        if acc <= 0xffff_ffff {
            acc = acc * 10 + (s[i] - 48) as u64;
        }
        i += 1;
    }
    if acc <= 0xffff_ffff {
        (i, Some(acc as u32))
    } else {
        (i, None)
    }
}

/// The width, the height and the length of the header at the start of
/// `s`, if there is one.
pub fn parse_header(s: &[u8]) -> (r: Option<(u32, u32, usize)>)
    ensures
        match parsed_header(s@) {
            Some((w, h, n)) => r == Some((w, h, n as usize)),
            None => r is None,
        },
{
    let m = magic_bytes();
    let ml = m.len();
    if s.len() < ml {
        return None;
    }
    let mut k: usize = 0;
    while k < ml
        invariant
            m@ == magic(),
            ml == m@.len(),
            ml <= s@.len(),
            k <= ml,
            forall|j: int| 0 <= j < k ==> s@[j] == m@[j],
        decreases ml - k,
    {
        if s[k] != m[k] {
            proof {
                assert(s@.subrange(0, ml as int)[k as int] != magic()[k as int]);
            }
            return None;
        }
        k += 1;
    }
    assert(s@.subrange(0, ml as int) =~= magic());
    let (i1, w) = parse_number(s, ml);
    if i1 == ml || i1 >= s.len() || s[i1] != 32 {
        return None;
    }
    let (i2, h) = parse_number(s, i1 + 1);
    if i2 == i1 + 1 || i2 >= s.len() || s[i2] != 10 {
        return None;
    }
    match (w, h) {
        (Some(w), Some(h)) => Some((w, h, i2 + 1)),
        _ => None,
    }
}

/// The bytes of the words, four per word: the low 32 bits of each word,
/// most significant byte first.
pub fn words_to_bytes(words: &Vec<u64>) -> (bytes: Vec<u8>)
    ensures
        bytes@ == words_bytes(words@),
{
    let mut bytes: Vec<u8> = Vec::new();
    let mut i: usize = 0;
    while i < words.len()
        invariant
            i <= words@.len(),
            bytes@ == words_bytes(words@.subrange(0, i as int)),
        decreases words@.len() - i,
    {
        let current_word = words[i];
        proof {
            assert(words@.subrange(0, i + 1).drop_last() =~= words@.subrange(0, i as int));
        }
        bytes.push(((current_word >> 24u64) & 0xff) as u8);
        bytes.push(((current_word >> 16u64) & 0xff) as u8);
        bytes.push(((current_word >> 8u64) & 0xff) as u8);
        bytes.push((current_word & 0xff) as u8);
        proof {
            assert(bytes@ =~= words_bytes(words@.subrange(0, i + 1)));
        }
        i += 1;
    }
    assert(words@.subrange(0, i as int) =~= words@);
    bytes
}

/// The words that the bytes hold, four bytes per word, most significant
/// byte first.
pub fn bytes_to_words(bytes: &[u8]) -> (words: Vec<u64>)
    requires
        bytes@.len() % 4 == 0,
    ensures
        words@ == bytes_words(bytes@),
{
    let mut words: Vec<u64> = Vec::new();
    let mut i: usize = 0;
    while i < bytes.len()
        invariant
            i <= bytes@.len(),
            i % 4 == 0,
            bytes@.len() % 4 == 0,
            words@ == bytes_words(bytes@.subrange(0, i as int)),
        decreases bytes@.len() - i,
    {
        let b0 = bytes[i];
        let b1 = bytes[i + 1];
        let b2 = bytes[i + 2];
        let b3 = bytes[i + 3];
        let word = ((b0 as u64) << 24u64) | ((b1 as u64) << 16u64) | ((b2 as u64) << 8u64) | (b3 as u64);
        proof {
            let t = bytes@.subrange(0, i + 4);
            assert(t.subrange(0, t.len() - 4) =~= bytes@.subrange(0, i as int));
            assert(t.subrange(t.len() - 4, t.len() as int) =~= seq![b0, b1, b2, b3]);
        }
        words.push(word);
        i += 4;
    }
    assert(bytes@.subrange(0, i as int) =~= bytes@);
    words
}

/// The bytes of the compressed image whose blocks are `word_array`: the
/// header with the image's width and height, twice those of the array of
/// blocks and cut to 32 bits, then the code words.
pub fn encode_compressed(word_array: &Array2<u64>) -> (bytes: Vec<u8>)
    requires
        word_array.width * 2 <= usize::MAX,
        word_array.height * 2 <= usize::MAX,
    ensures
        bytes@ == encoded(word_array.width, word_array.height, word_array.v@),
{
    let mut bytes = compressed_header((word_array.width * 2) as u32, (word_array.height * 2) as u32);
    let mut payload = words_to_bytes(&word_array.v);
    bytes.append(&mut payload);
    bytes
}

/// The array of code words of a compressed image, read from its bytes.
pub fn decode_compressed(bytes: &[u8]) -> (r: Result<Array2<u64>, DecodeError>)
    ensures
        match decoded(bytes@) {
            Ok((w, h, ws)) => r matches Ok(a) && a.width == w && a.height == h && a.v@ == ws,
            Err(e) => r == Err::<Array2<u64>, DecodeError>(e),
        },
{
    let (w, h, n) = match parse_header(bytes) {
        Some(header) => header,
        None => {
            return Err(DecodeError::BadHeader);
        },
    };
    let payload = vstd::slice::slice_subrange(bytes, n, bytes.len());
    if payload.len() % 4 != 0 {
        return Err(DecodeError::PartialWord);
    }
    let bw = w / 2;
    let bh = h / 2;
    assert((bw as u64) * (bh as u64) <= 0x4000_0000_0000_0000) by (nonlinear_arith)
        requires
            bw <= 0x8000_0000u64,
            bh <= 0x8000_0000u64,
    ;
    if (payload.len() / 4) as u64 != (bw as u64) * (bh as u64) {
        return Err(DecodeError::SizeMismatch);
    }
    let words = bytes_to_words(payload);
    Ok(Array2 { v: words, width: bw as usize, height: bh as usize })
}

proof fn lemma_decimal(n: nat)
    ensures
        decimal(n).len() >= 1,
        forall|i: int| 0 <= i < decimal(n).len() ==> is_digit(#[trigger] decimal(n)[i]),
        digits_value(decimal(n)) == n,
    decreases n,
{
    if n >= 10 {
        lemma_decimal(n / 10);
        assert(decimal(n).drop_last() =~= decimal(n / 10));
        assert(decimal(n).last() == (48 + n % 10) as u8);
        assert((48 + n % 10) as u8 - 48 == n % 10);
        assert((n / 10) * 10 + n % 10 == n);
        assert(digits_value(decimal(n)) == digits_value(decimal(n / 10)) * 10 + (decimal(n).last()
            - 48) as nat);
    } else {
        assert(decimal(n).drop_last() =~= Seq::<u8>::empty());
        assert(decimal(n).last() == (48 + n) as u8);
        assert(digits_value(Seq::<u8>::empty()) == 0);
        assert(digits_value(decimal(n)) == digits_value(Seq::<u8>::empty()) * 10 + (decimal(n).last()
            - 48) as nat);
    }
}

proof fn lemma_digit_run(s: Seq<u8>, i: int, k: int)
    requires
        0 <= i,
        0 <= k,
        i + k <= s.len(),
        forall|j: int| i <= j < i + k ==> is_digit(#[trigger] s[j]),
        i + k == s.len() || !is_digit(s[i + k]),
    ensures
        digit_run(s, i) == k,
    decreases k,
{
    if k > 0 {
        lemma_digit_run(s, i + 1, k - 1);
    }
}

/// Reading the header written for a width and a height gives them back,
/// whatever follows the header.
pub proof fn lemma_parse_header_roundtrip(width: u32, height: u32, rest: Seq<u8>)
    ensures
        parsed_header(header_bytes(width, height) + rest) == Some(
            (width, height, header_bytes(width, height).len()),
        ),
{
    let d1 = decimal(width as nat);
    let d2 = decimal(height as nat);
    lemma_decimal(width as nat);
    lemma_decimal(height as nat);
    let s = header_bytes(width, height) + rest;
    let m = magic().len() as int;
    let i1 = m + d1.len();
    let i2 = i1 + 1 + d2.len();
    assert(s.subrange(0, m) =~= magic());
    assert(s.subrange(m, i1) =~= d1);
    assert(s.subrange(i1 + 1, i2) =~= d2);
    assert forall|j: int| m <= j < i1 implies is_digit(#[trigger] s[j]) by {
        assert(s[j] == d1[j - m]);
    }
    assert forall|j: int| i1 + 1 <= j < i2 implies is_digit(#[trigger] s[j]) by {
        assert(s[j] == d2[j - i1 - 1]);
    }
    lemma_digit_run(s, m, d1.len() as int);
    lemma_digit_run(s, i1 + 1, d2.len() as int);
}

proof fn lemma_be_word_of_bytes(w: u64)
    ensures
        be_word(be_bytes(w)) == w & 0xffff_ffff,
{
    assert(((((w >> 24u64) & 0xff) as u8 as u64) << 24u64) | ((((w >> 16u64) & 0xff) as u8 as u64)
        << 16u64) | ((((w >> 8u64) & 0xff) as u8 as u64) << 8u64) | ((w & 0xff) as u8 as u64) == w
        & 0xffff_ffff) by (bit_vector);
}

proof fn lemma_be_bytes_of_word(b: Seq<u8>)
    requires
        b.len() == 4,
    ensures
        be_bytes(be_word(b)) == b,
{
    let (b0, b1, b2, b3) = (b[0], b[1], b[2], b[3]);
    let w = ((b0 as u64) << 24u64) | ((b1 as u64) << 16u64) | ((b2 as u64) << 8u64) | (b3 as u64);
    assert(((w >> 24u64) & 0xff) as u8 == b0 && ((w >> 16u64) & 0xff) as u8 == b1 && ((w >> 8u64)
        & 0xff) as u8 == b2 && (w & 0xff) as u8 == b3) by (bit_vector)
        requires
            w == ((b0 as u64) << 24u64) | ((b1 as u64) << 16u64) | ((b2 as u64) << 8u64) | (b3 as u64),
    ;
    assert(be_bytes(be_word(b)) =~= b);
}

/// Each word takes four bytes.
pub proof fn lemma_words_bytes_len(ws: Seq<u64>)
    ensures
        words_bytes(ws).len() == 4 * ws.len(),
    decreases ws.len(),
{
    if ws.len() > 0 {
        lemma_words_bytes_len(ws.drop_last());
    }
}

/// Reading back the bytes of 32-bit words gives the words.
pub proof fn lemma_bytes_words_roundtrip(ws: Seq<u64>)
    requires
        forall|i: int| 0 <= i < ws.len() ==> #[trigger] ws[i] <= 0xffff_ffff,
    ensures
        bytes_words(words_bytes(ws)) == ws,
    decreases ws.len(),
{
    if ws.len() > 0 {
        let init = ws.drop_last();
        let s = words_bytes(ws);
        lemma_words_bytes_len(ws);
        lemma_words_bytes_len(init);
        assert forall|i: int| 0 <= i < init.len() implies #[trigger] init[i] <= 0xffff_ffff by {
            assert(init[i] == ws[i]);
        }
        lemma_bytes_words_roundtrip(init);
        assert(s.subrange(0, s.len() - 4) =~= words_bytes(init));
        assert(s.subrange(s.len() - 4, s.len() as int) =~= be_bytes(ws.last()));
        lemma_be_word_of_bytes(ws.last());
        let x = ws.last();
        assert(x <= 0xffff_ffff);
        assert(x & 0xffff_ffff == x) by (bit_vector)
            requires
                x <= 0xffff_ffff,
        ;
        assert(bytes_words(s) =~= ws);
    } else {
        assert(bytes_words(words_bytes(ws)) =~= ws);
    }
}

/// Writing out the words that whole 4-byte groups hold gives the bytes back.
pub proof fn lemma_words_bytes_roundtrip(bs: Seq<u8>)
    requires
        bs.len() % 4 == 0,
    ensures
        words_bytes(bytes_words(bs)) == bs,
    decreases bs.len(),
{
    if bs.len() >= 4 {
        let init = bs.subrange(0, bs.len() - 4);
        let last = bs.subrange(bs.len() - 4, bs.len() as int);
        lemma_words_bytes_roundtrip(init);
        lemma_be_bytes_of_word(last);
        let ws = bytes_words(bs);
        assert(ws.drop_last() =~= bytes_words(init));
        assert(words_bytes(ws) =~= bs);
    } else {
        assert(bs.len() == 0);
        assert(words_bytes(bytes_words(bs)) =~= bs);
    }
}

/// Reading the bytes written for an array of 32-bit code words gives the
/// array back, as long as the image's width and height fit in 32 bits.
pub proof fn lemma_decode_encode(width: usize, height: usize, words: Seq<u64>)
    requires
        words.len() == width * height,
        width * 2 <= u32::MAX,
        height * 2 <= u32::MAX,
        forall|i: int| 0 <= i < words.len() ==> #[trigger] words[i] <= 0xffff_ffff,
    ensures
        decoded(encoded(width, height, words)) == Ok::<(u32, u32, Seq<u64>), DecodeError>(
            (width as u32, height as u32, words),
        ),
{
    let w = (width * 2) as u32;
    let h = (height * 2) as u32;
    let head = header_bytes(w, h);
    let body = words_bytes(words);
    let s = encoded(width, height, words);
    lemma_parse_header_roundtrip(w, h, body);
    lemma_words_bytes_len(words);
    lemma_bytes_words_roundtrip(words);
    assert(s.subrange(head.len() as int, s.len() as int) =~= body);
}

/// The compressed file keeps the quantized blocks exactly: reading back the
/// file written for the code words of an array of blocks, and unpacking the
/// words, gives the blocks back.
pub proof fn lemma_blocks_survive_file(width: usize, height: usize, blocks: Seq<ImageCos>)
    requires
        blocks.len() == width * height,
        width * 2 <= u32::MAX,
        height * 2 <= u32::MAX,
        forall|i: int| 0 <= i < blocks.len() ==> packable(#[trigger] blocks[i]),
    ensures
        decoded(encoded(width, height, blocks.map_values(|b: ImageCos| word_of(b)))) == Ok::<
            (u32, u32, Seq<u64>),
            DecodeError,
        >((width as u32, height as u32, blocks.map_values(|b: ImageCos| word_of(b)))),
        blocks.map_values(|b: ImageCos| word_of(b)).map_values(|w: u64| block_of(w)) == blocks,
{
    let words = blocks.map_values(|b: ImageCos| word_of(b));
    assert forall|i: int| 0 <= i < words.len() implies #[trigger] words[i] <= 0xffff_ffff by {
        crate::codeword::lemma_word_of_fits(blocks[i]);
    }
    lemma_decode_encode(width, height, words);
    assert forall|i: int| 0 <= i < blocks.len() implies words.map_values(|w: u64| block_of(w))[i]
        == blocks[i] by {
        lemma_unpack_pack(blocks[i]);
    }
    assert(words.map_values(|w: u64| block_of(w)) =~= blocks);
}

/// The bytes of a word are the base-256 digits of its low 32 bits, most
/// significant first, and reading four bytes gives the number they spell.
pub proof fn lemma_big_endian_values(w: u64, b: Seq<u8>)
    requires
        b.len() == 4,
    ensures
        be_bytes(w)[0] * 0x100_0000 + be_bytes(w)[1] * 0x1_0000 + be_bytes(w)[2] * 0x100
            + be_bytes(w)[3] == w as int % 0x1_0000_0000,
        be_word(b) as int == b[0] * 0x100_0000 + b[1] * 0x1_0000 + b[2] * 0x100 + b[3],
{
    let (x0, x1, x2, x3) = ((w >> 24u64) & 0xff, (w >> 16u64) & 0xff, (w >> 8u64) & 0xff, w & 0xff);
    assert(x0 < 256 && x1 < 256 && x2 < 256 && x3 < 256 && x0 * 0x100_0000 + x1 * 0x1_0000 + x2
        * 0x100 + x3 == w & 0xffff_ffff && w & 0xffff_ffff == w % 0x1_0000_0000) by (bit_vector)
        requires
            x0 == (w >> 24u64) & 0xff,
            x1 == (w >> 16u64) & 0xff,
            x2 == (w >> 8u64) & 0xff,
            x3 == w & 0xff,
    ;
    let (b0, b1, b2, b3) = (b[0], b[1], b[2], b[3]);
    assert(((b0 as u64) << 24u64) | ((b1 as u64) << 16u64) | ((b2 as u64) << 8u64) | (b3 as u64)
        == (b0 as u64) * 0x100_0000 + (b1 as u64) * 0x1_0000 + (b2 as u64) * 0x100 + (b3 as u64))
        by (bit_vector);
}

/// The `k`-th word takes bytes `4 * k` to `4 * k + 3` of the byte string.
pub proof fn lemma_words_bytes_index(ws: Seq<u64>, k: int, j: int)
    requires
        0 <= k < ws.len(),
        0 <= j < 4,
    ensures
        words_bytes(ws).len() == 4 * ws.len(),
        words_bytes(ws)[4 * k + j] == be_bytes(ws[k])[j],
    decreases ws.len(),
{
    lemma_words_bytes_len(ws);
    let init = ws.drop_last();
    lemma_words_bytes_len(init);
    if k < ws.len() - 1 {
        lemma_words_bytes_index(init, k, j);
        assert(words_bytes(ws)[4 * k + j] == words_bytes(init)[4 * k + j]);
    }
}

/// The decimal digits of a number end in its last digit and, before it,
/// spell the number divided by ten; a number of two or more digits does
/// not start with a zero.
pub proof fn lemma_decimal_digits(n: nat)
    ensures
        decimal(n).len() >= 1,
        forall|i: int| 0 <= i < decimal(n).len() ==> is_digit(#[trigger] decimal(n)[i]),
        decimal(n).last() == 48 + n % 10,
        n < 10 ==> decimal(n).len() == 1,
        n >= 10 ==> decimal(n).drop_last() == decimal(n / 10) && decimal(n)[0] != 48,
        digits_value(decimal(n)) == n,
    decreases n,
{
    lemma_decimal(n);
    if n >= 10 {
        lemma_decimal_digits(n / 10);
        assert(decimal(n).drop_last() =~= decimal(n / 10));
        assert(decimal(n)[0] == decimal(n / 10)[0]);
        if n / 10 < 10 {
            assert(decimal(n / 10)[0] == 48 + (n / 10) % 10);
        }
    }
}

/// The header is the first line, the width's digits, one space, the
/// height's digits and a line break, in that order.
pub proof fn lemma_header_layout(width: u32, height: u32)
    ensures
        ({
            let s = header_bytes(width, height);
            let d1 = decimal(width as nat);
            let l1 = d1.len() as int;
            let d2 = decimal(height as nat);
            let l2 = d2.len() as int;
            &&& s.len() == 28 + l1 + l2
            &&& s.subrange(0, 26) == magic()
            &&& s.subrange(26, 26 + l1) == d1
            &&& s[26 + l1] == 32
            &&& s.subrange(27 + l1, 27 + l1 + l2) == d2
            &&& s[27 + l1 + l2] == 10
        }),
{
    let s = header_bytes(width, height);
    let d1 = decimal(width as nat);
    let d2 = decimal(height as nat);
    let l1 = d1.len() as int;
    let l2 = d2.len() as int;
    assert(s.subrange(0, 26) =~= magic());
    assert(s.subrange(26, 26 + l1) =~= d1);
    assert(s.subrange(27 + l1, 27 + l1 + l2) =~= d2);
}

} // verus!
