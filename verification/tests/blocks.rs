use rpeg::array2::Array2;
use rpeg::blocks::{gather_blocks, place_blocks, Quad};

fn image(width: usize, height: usize) -> Array2<u32> {
    Array2 { v: (0..(width * height) as u32).collect(), width, height }
}

fn corners(q: &Quad<u32>) -> [u32; 4] {
    [q.zero_zero, q.zero_one, q.one_zero, q.one_one]
}

#[test]
fn gather_takes_two_by_two_blocks() {
    // 4 x 2 image:
    //  0 1 2 3
    //  4 5 6 7
    let blocks = gather_blocks(&image(4, 2));
    assert_eq!(blocks.width, 2);
    assert_eq!(blocks.height, 1);
    assert_eq!(corners(&blocks.v[0]), [0, 1, 4, 5]);
    assert_eq!(corners(&blocks.v[1]), [2, 3, 6, 7]);
}

#[test]
fn gather_orders_blocks_row_major() {
    let blocks = gather_blocks(&image(2, 4));
    assert_eq!(blocks.width, 1);
    assert_eq!(blocks.height, 2);
    assert_eq!(corners(&blocks.v[0]), [0, 1, 2, 3]);
    assert_eq!(corners(&blocks.v[1]), [4, 5, 6, 7]);
}

#[test]
fn place_puts_blocks_back() {
    let blocks = Array2 {
        v: vec![
            Quad { zero_zero: 1, zero_one: 2, one_zero: 5, one_one: 6 },
            Quad { zero_zero: 3, zero_one: 4, one_zero: 7, one_one: 8 },
            Quad { zero_zero: 9, zero_one: 10, one_zero: 13, one_one: 14 },
            Quad { zero_zero: 11, zero_one: 12, one_zero: 15, one_one: 16 },
        ],
        width: 2,
        height: 2,
    };
    let img = place_blocks(&blocks, 0u32);
    assert_eq!(img.width, 4);
    assert_eq!(img.height, 4);
    assert_eq!(img.v, (1..=16).collect::<Vec<u32>>());
}

#[test]
fn place_after_gather_is_identity() {
    for &(w, h) in &[(2usize, 2usize), (4, 2), (2, 6), (6, 4), (0, 4), (8, 0)] {
        let img = image(w, h);
        let back = place_blocks(&gather_blocks(&img), 99);
        assert_eq!(back.width, w);
        assert_eq!(back.height, h);
        assert_eq!(back.v, img.v);
    }
}

#[test]
fn trim_drops_odd_row_and_column() {
    // 3 x 3 image:
    //  0 1 2
    //  3 4 5
    //  6 7 8
    let mut img = image(3, 3);
    img.trim();
    assert_eq!(img.width, 2);
    assert_eq!(img.height, 2);
    assert_eq!(img.v, vec![0, 1, 3, 4]);
    let mut even = image(4, 2);
    even.trim();
    assert_eq!(even.width, 4);
    assert_eq!(even.height, 2);
    assert_eq!(even.v, image(4, 2).v);
    let mut thin = image(1, 5);
    thin.trim();
    assert_eq!(thin.width, 0);
    assert_eq!(thin.height, 4);
    assert!(thin.v.is_empty());
}
