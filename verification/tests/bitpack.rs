use rpeg::bitpack::{fitss, fitsu, gets, getu, news, newu};

#[test]
fn fitsu_edges() {
    assert!(fitsu(0, 0));
    assert!(!fitsu(1, 0));
    assert!(fitsu(511, 9));
    assert!(!fitsu(512, 9));
    assert!(fitsu(u64::MAX, 64));
    assert!(!fitsu(u64::MAX, 63));
}

#[test]
fn fitss_edges() {
    assert!(fitss(0, 0));
    assert!(!fitss(-1, 0));
    assert!(fitss(-16, 5));
    assert!(fitss(15, 5));
    assert!(!fitss(16, 5));
    assert!(!fitss(-17, 5));
    assert!(fitss(i64::MIN, 64));
    assert!(fitss(i64::MAX, 64));
    assert!(!fitss(i64::MIN, 63));
    assert!(fitss(-1, 1));
    assert!(!fitss(1, 1));
}

#[test]
fn getu_reads_a_field() {
    assert_eq!(getu(0x3f4, 6, 2), 0x3d);
    assert_eq!(getu(0xffff_ffff_ffff_ffff, 64, 0), u64::MAX);
    assert_eq!(getu(0x8000_0000_0000_0000, 1, 63), 1);
    assert_eq!(getu(12345, 0, 64), 0);
}

#[test]
fn gets_sign_extends() {
    assert_eq!(gets(0x3f4, 6, 2), -3);
    assert_eq!(gets(0x0f0, 4, 4), -1);
    assert_eq!(gets(0x070, 4, 4), 7);
    assert_eq!(gets(0x8000_0000_0000_0000, 64, 0), i64::MIN);
    assert_eq!(gets(5, 0, 3), 0);
}

#[test]
fn newu_sets_a_field_and_keeps_the_rest() {
    assert_eq!(newu(0xffff, 4, 4, 0x3), Some(0xff3f));
    assert_eq!(newu(0, 9, 23, 511), Some(511 << 23));
    assert_eq!(newu(0, 9, 23, 512), None);
    assert_eq!(newu(7, 0, 64, 0), Some(7));
    assert_eq!(newu(7, 64, 0, 9), Some(9));
}

#[test]
fn news_stores_twos_complement() {
    assert_eq!(news(0, 5, 18, -16), Some(16 << 18));
    assert_eq!(news(0, 5, 8, -1), Some(31 << 8));
    assert_eq!(news(0, 5, 8, 16), None);
    assert_eq!(news(0, 5, 8, -17), None);
    assert_eq!(news(0xff, 4, 0, 3), Some(0xf3));
}

#[test]
fn field_round_trips() {
    let word = 0x0123_4567_89ab_cdefu64;
    for &(width, lsb) in &[(1u64, 0u64), (5, 18), (9, 23), (32, 32), (64, 0)] {
        let w = newu(word, width, lsb, 1).unwrap();
        assert_eq!(getu(w, width, lsb), 1);
        if width < 64 {
            let s = news(word, width, lsb, -1).unwrap();
            assert_eq!(gets(s, width, lsb), -1);
        }
    }
    let w = newu(word, 8, 8, 0xaa).unwrap();
    assert_eq!(getu(w, 8, 0), getu(word, 8, 0));
    assert_eq!(getu(w, 48, 16), getu(word, 48, 16));
}
