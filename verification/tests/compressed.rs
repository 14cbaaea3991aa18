use rpeg::array2::Array2;
use rpeg::codeword::{convert_to_words, word_to_cos, ImageCos};
use rpeg::compressed::{
    bytes_to_words, compressed_header, decode_compressed, encode_compressed, parse_header,
    words_to_bytes, DecodeError,
};

#[test]
fn header_text() {
    assert_eq!(compressed_header(512, 384), b"Compressed image format 2\n512 384\n".to_vec());
    assert_eq!(compressed_header(0, 7), b"Compressed image format 2\n0 7\n".to_vec());
    assert_eq!(
        compressed_header(u32::MAX, 10),
        b"Compressed image format 2\n4294967295 10\n".to_vec()
    );
}

#[test]
fn header_parses() {
    let h = b"Compressed image format 2\n512 384\nrest";
    assert_eq!(parse_header(h), Some((512, 384, 34)));
    assert_eq!(parse_header(b"Compressed image format 2\n007 8\n"), Some((7, 8, 32)));
    assert_eq!(parse_header(b"Compressed image format 2\n4294967295 1\n"), Some((u32::MAX, 1, 39)));
}

#[test]
fn header_rejects() {
    assert_eq!(parse_header(b""), None);
    assert_eq!(parse_header(b"Compressed image format 1\n2 2\n"), None);
    assert_eq!(parse_header(b"Compressed image format 2\n2 2"), None);
    assert_eq!(parse_header(b"Compressed image format 2\n2  2\n"), None);
    assert_eq!(parse_header(b"Compressed image format 2\n 2 2\n"), None);
    assert_eq!(parse_header(b"Compressed image format 2\n4294967296 1\n"), None);
    assert_eq!(parse_header(b"Compressed image format 2\n2 x\n"), None);
}

#[test]
fn words_are_big_endian() {
    assert_eq!(words_to_bytes(&vec![0x0102_0304, 0xffc1_fff0]), vec![1, 2, 3, 4, 255, 193, 255, 240]);
    // Only the low 32 bits of a word are written.
    assert_eq!(words_to_bytes(&vec![0xaaaa_bbbb_0102_0304]), vec![1, 2, 3, 4]);
    assert_eq!(bytes_to_words(&[1, 2, 3, 4, 255, 193, 255, 240]), vec![0x0102_0304, 0xffc1_fff0]);
    assert_eq!(bytes_to_words(&[]), Vec::<u64>::new());
}

#[test]
fn encode_writes_header_then_words() {
    let a = Array2 { v: vec![0x961f_a029u64, 0x0000_0001], width: 2, height: 1 };
    let mut expected = b"Compressed image format 2\n4 2\n".to_vec();
    expected.extend_from_slice(&[150, 31, 160, 41, 0, 0, 0, 1]);
    assert_eq!(encode_compressed(&a), expected);
}

#[test]
fn decode_reads_what_encode_wrote() {
    let a = Array2 { v: vec![1u64, 2, 3, 0xffff_ffff, 5, 6], width: 3, height: 2 };
    let back = decode_compressed(&encode_compressed(&a)).unwrap();
    assert_eq!(back.width, 3);
    assert_eq!(back.height, 2);
    assert_eq!(back.v, a.v);
}

#[test]
fn decode_odd_header_dimensions() {
    // A 5 x 3 image has 2 x 1 blocks.
    let mut bytes = b"Compressed image format 2\n5 3\n".to_vec();
    bytes.extend_from_slice(&[0, 0, 0, 7, 0, 0, 0, 9]);
    let a = decode_compressed(&bytes).unwrap();
    assert_eq!((a.width, a.height), (2, 1));
    assert_eq!(a.v, vec![7, 9]);
}

#[test]
fn decode_errors() {
    assert_eq!(decode_compressed(b"P6\n2 2\n").err(), Some(DecodeError::BadHeader));
    let mut partial = b"Compressed image format 2\n2 2\n".to_vec();
    partial.extend_from_slice(&[0, 0, 1]);
    assert_eq!(decode_compressed(&partial).err(), Some(DecodeError::PartialWord));
    let mut short = b"Compressed image format 2\n4 2\n".to_vec();
    short.extend_from_slice(&[0, 0, 0, 1]);
    assert_eq!(decode_compressed(&short).err(), Some(DecodeError::SizeMismatch));
}

#[test]
fn blocks_survive_the_file() {
    let blocks = Array2 {
        v: vec![
            ImageCos { indexed_pb: 15, indexed_pr: 0, a: 511, b: -16, c: 15, d: -1 },
            ImageCos { indexed_pb: 2, indexed_pr: 9, a: 300, b: 7, c: -3, d: 0 },
            ImageCos { indexed_pb: 7, indexed_pr: 8, a: 0, b: 0, c: 0, d: 15 },
            ImageCos { indexed_pb: 0, indexed_pr: 15, a: 1, b: -1, c: -16, d: -16 },
        ],
        width: 2,
        height: 2,
    };
    let bytes = encode_compressed(&convert_to_words(blocks.clone()));
    let back = word_to_cos(decode_compressed(&bytes).unwrap());
    assert_eq!((back.width, back.height), (2, 2));
    assert_eq!(back.v, blocks.v);
}
