use rpeg::array2::Array2;
use rpeg::codeword::{convert_to_words, pack_word, unpack_word, word_to_cos, ImageCos};

fn block(a: u64, b: i64, c: i64, d: i64, pb: usize, pr: usize) -> ImageCos {
    ImageCos { indexed_pb: pb, indexed_pr: pr, a, b, c, d }
}

#[test]
fn pack_word_layout() {
    assert_eq!(pack_word(block(511, -16, 15, -1, 15, 0)), 0xffc1_fff0);
    assert_eq!(pack_word(block(300, 7, -3, 0, 2, 9)), 0x961f_a029);
    assert_eq!(pack_word(block(0, 0, 0, 0, 0, 0)), 0);
}

#[test]
fn unpack_word_layout() {
    assert_eq!(unpack_word(0xffc1_fff0), block(511, -16, 15, -1, 15, 0));
    assert_eq!(unpack_word(0x961f_a029), block(300, 7, -3, 0, 2, 9));
    // Bits above the low 32 are not part of any field.
    assert_eq!(unpack_word(0xdead_0000_961f_a029), block(300, 7, -3, 0, 2, 9));
}

#[test]
fn pack_unpack_round_trip() {
    for &w in &[0u64, 1, 0x7fff_ffff, 0x8000_0000, 0xffff_ffff, 0x1234_5678] {
        assert_eq!(pack_word(unpack_word(w)), w);
    }
    let b = block(42, -9, 3, 14, 8, 1);
    assert_eq!(unpack_word(pack_word(b)), b);
}

#[test]
fn words_and_blocks_keep_shape() {
    let blocks = Array2 {
        v: vec![block(1, 1, 1, 1, 1, 1), block(511, -16, 15, -1, 15, 0)],
        width: 2,
        height: 1,
    };
    let words = convert_to_words(blocks.clone());
    assert_eq!(words.width, 2);
    assert_eq!(words.height, 1);
    assert_eq!(words.v, vec![0x0084_2111, 0xffc1_fff0]);
    let back = word_to_cos(words);
    assert_eq!(back.width, 2);
    assert_eq!(back.height, 1);
    assert_eq!(back.v, blocks.v);
}
