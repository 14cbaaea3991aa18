//! Cutting an image into 2x2 blocks and putting it back together.
//!
//! Here an [`Array2`] holds an image in row-major order: `width` pixels per
//! row, `height` rows, the pixel in column `x` of row `y` at position
//! `y * width + x` of the storage.

use vstd::prelude::*;
use crate::array2::{grid_index, Array2};

verus! {

/// The four pixels of a 2x2 block: `zero_zero` top left, `zero_one` top
/// right, `one_zero` bottom left, `one_one` bottom right.
#[derive(Clone, Copy)]
pub struct Quad<T> {
    pub zero_zero: T,
    pub zero_one: T,
    pub one_zero: T,
    pub one_one: T,
}

/// The storage holds exactly `width * height` pixels.
pub open spec fn is_image<T>(a: Array2<T>) -> bool {
    a.v@.len() == a.width * a.height
}

/// The block in column `bi` and row `bj` of blocks of a row-major image
/// `p` whose rows hold `width` pixels.
pub open spec fn quad_at<T>(p: Seq<T>, width: int, bi: int, bj: int) -> Quad<T> {
    Quad {
        zero_zero: p[grid_index(width, 2 * bj, 2 * bi)],
        zero_one: p[grid_index(width, 2 * bj, 2 * bi + 1)],
        one_zero: p[grid_index(width, 2 * bj + 1, 2 * bi)],
        one_one: p[grid_index(width, 2 * bj + 1, 2 * bi + 1)],
    }
}

/// `blocks` are the 2x2 blocks of `image` in row-major order of blocks:
/// the block in column `bi` and row `bj` of blocks is made of the pixels in
/// columns `2 * bi` and `2 * bi + 1` of rows `2 * bj` and `2 * bj + 1`.
pub open spec fn tiles<T>(image: Array2<T>, blocks: Array2<Quad<T>>) -> bool {
    &&& is_image(image)
    &&& is_image(blocks)
    &&& image.width == 2 * blocks.width
    &&& image.height == 2 * blocks.height
    &&& forall|bi: int, bj: int|
        #![trigger blocks.v@[grid_index(blocks.width as int, bj, bi)]]
        #![trigger quad_at(image.v@, image.width as int, bi, bj)]
        0 <= bi < blocks.width && 0 <= bj < blocks.height ==> quad_at(
            image.v@,
            image.width as int,
            bi,
            bj,
        ) == blocks.v@[grid_index(blocks.width as int, bj, bi)]
}

/// Row-major positions grow with the row, then with the column.
proof fn lemma_grid_index_order(w: int, y1: int, x1: int, y2: int, x2: int)
    requires
        0 <= x1 < w,
        0 <= x2 < w,
        0 <= y1,
        y1 < y2 || (y1 == y2 && x1 < x2),
    ensures
        grid_index(w, y1, x1) < grid_index(w, y2, x2),
{
    if y1 < y2 {
        assert(y1 * w + x1 < y2 * w + x2) by (nonlinear_arith)
            requires
                0 <= x1 < w,
                0 <= x2 < w,
                0 <= y1 < y2,
        ;
    }
}

/// Inside an image of `h` rows of `w` pixels, every position is below `w * h`.
proof fn lemma_grid_index_bound(w: int, h: int, y: int, x: int)
    requires
        0 <= x < w,
        0 <= y < h,
    ensures
        0 <= grid_index(w, y, x) < w * h,
{
    assert(0 <= y * w + x < w * h) by (nonlinear_arith)
        requires
            0 <= x < w,
            0 <= y < h,
    ;
}

/// Distinct positions of an image are distinct positions of the storage.
proof fn lemma_grid_index_injective(w: int, y1: int, x1: int, y2: int, x2: int)
    requires
        0 <= x1 < w,
        0 <= x2 < w,
        0 <= y1,
        0 <= y2,
        grid_index(w, y1, x1) == grid_index(w, y2, x2),
    ensures
        y1 == y2,
        x1 == x2,
{
    if y1 < y2 || (y1 == y2 && x1 < x2) {
        lemma_grid_index_order(w, y1, x1, y2, x2);
    } else if y2 < y1 || (y1 == y2 && x2 < x1) {
        lemma_grid_index_order(w, y2, x2, y1, x1);
    }
}

/// The 2x2 blocks of an image of even width and height, in row-major order
/// of blocks.
pub fn gather_blocks<T: Copy>(pixels: &Array2<T>) -> (blocks: Array2<Quad<T>>)
    requires
        is_image(*pixels),
        pixels.width % 2 == 0,
        pixels.height % 2 == 0,
    ensures
        tiles(*pixels, blocks),
{
    let w = pixels.width;
    let h = pixels.height;
    let bw = w / 2;
    let mut transformed_2x2: Vec<Quad<T>> = Vec::new();
    let mut j: usize = 0;
    while j < h
        invariant
            is_image(*pixels),
            w == pixels.width,
            h == pixels.height,
            w % 2 == 0,
            h % 2 == 0,
            bw == w / 2,
            j % 2 == 0,
            j <= h,
            transformed_2x2@.len() == (j / 2) * bw,
            forall|bi: int, bj: int|
                0 <= bi < bw && 0 <= bj < j / 2
                    ==> #[trigger] transformed_2x2@[grid_index(bw as int, bj, bi)]
                    == quad_at(pixels.v@, w as int, bi, bj),
        decreases h - j,
    {
        let mut i: usize = 0;
        while i < w
            invariant
                is_image(*pixels),
                w == pixels.width,
                h == pixels.height,
                w % 2 == 0,
                h % 2 == 0,
                bw == w / 2,
                j % 2 == 0,
                j < h,
                i % 2 == 0,
                i <= w,
                transformed_2x2@.len() == (j / 2) * bw + i / 2,
                forall|bi: int, bj: int|
                    0 <= bi < bw && 0 <= bj < j / 2
                        ==> #[trigger] transformed_2x2@[grid_index(bw as int, bj, bi)]
                        == quad_at(pixels.v@, w as int, bi, bj),
                forall|bi: int|
                    0 <= bi < i / 2 ==> #[trigger] transformed_2x2@[grid_index(bw as int, (j / 2) as int, bi)]
                        == quad_at(pixels.v@, w as int, bi, (j / 2) as int),
            decreases w - i,
        {
            proof {
                lemma_grid_index_bound(w as int, h as int, j + 1, i + 1);
                assert(0 <= j * w <= j * w + i && j * w + i + 1 <= (j + 1) * w + i + 1 && (j + 1) * w
                    == j * w + w) by (nonlinear_arith)
                    requires
                        0 <= i,
                        0 <= j,
                        0 <= w,
                ;
            }
            let len = pixels.v.len();
            assert((j + 1) * w + i + 1 < len);
            let zero_zero = pixels.v[j * w + i];
            let zero_one = pixels.v[j * w + i + 1];
            let one_zero = pixels.v[(j + 1) * w + i];
            let one_one = pixels.v[(j + 1) * w + i + 1];
            proof {
                assert forall|bi: int, bj: int| 0 <= bi < bw && 0 <= bj < j / 2 implies #[trigger] grid_index(
                    bw as int,
                    bj,
                    bi,
                ) < transformed_2x2@.len() by {
                    lemma_grid_index_order(bw as int, bj, bi, (j / 2) as int, (i / 2) as int);
                }
                assert forall|bi: int| 0 <= bi < i / 2 implies #[trigger] grid_index(bw as int, (j / 2) as int, bi)
                    < transformed_2x2@.len() by {
                    lemma_grid_index_order(bw as int, (j / 2) as int, bi, (j / 2) as int, (i / 2) as int);
                }
            }
            transformed_2x2.push(Quad { zero_zero, zero_one, one_zero, one_one });
            i += 2;
        }
        proof {
            assert((j / 2) * bw + bw == ((j + 2) / 2) * bw) by (nonlinear_arith)
                requires
                    j % 2 == 0,
                    j >= 0,
            ;
        }
        j += 2;
    }
    proof {
        assert((h / 2) * bw == bw * (h / 2)) by (nonlinear_arith);
    }
    Array2 { v: transformed_2x2, width: bw, height: h / 2 }
}

/// The image made of the given 2x2 blocks: twice as wide and twice as high
/// as the array of blocks, each block's pixels placed where
/// [`gather_blocks`] takes them from. Every pixel is written, so `blank`,
/// the value the image starts from, appears only where a block puts it.
pub fn place_blocks<T: Copy>(transformed_array: &Array2<Quad<T>>, blank: T) -> (image: Array2<T>)
    requires
        is_image(*transformed_array),
        transformed_array.width * 2 <= usize::MAX,
        transformed_array.height * 2 <= usize::MAX,
        (transformed_array.width * 2) * (transformed_array.height * 2) <= usize::MAX,
    ensures
        tiles(image, *transformed_array),
{
    let bw = transformed_array.width;
    let bh = transformed_array.height;
    let width = bw * 2;
    let height = bh * 2;
    let n = transformed_array.v.len();
    let mut counter: usize = 0;
    let mut working_vec: Vec<T> = vec![blank; width * height];
    let ghost mut gbi: int = 0;
    let ghost mut gbj: int = 0;
    let mut k: usize = 0;
    proof {
        if bw == 0 {
            assert(bw * bh == 0) by (nonlinear_arith)
                requires
                    bw == 0,
            ;
        }
    }
    while k < n
        invariant
            is_image(*transformed_array),
            bw == transformed_array.width,
            bh == transformed_array.height,
            width == bw * 2,
            height == bh * 2,
            width * height <= usize::MAX,
            n == transformed_array.v@.len(),
            working_vec@.len() == width * height,
            k <= n,
            k == grid_index(bw as int, gbj, gbi),
            0 <= gbj,
            k < n ==> 0 <= gbi < bw,
            k == 0 ==> counter == 0,
            k > 0 && gbi > 0 ==> counter == grid_index(width as int, 2 * gbj, 2 * gbi),
            k > 0 && gbi == 0 ==> counter + width == grid_index(width as int, 2 * gbj, 0),
            forall|bi: int, bj: int|
                0 <= bi < bw && 0 <= bj < bh && grid_index(bw as int, bj, bi) < k
                    ==> #[trigger] quad_at(working_vec@, width as int, bi, bj)
                    == transformed_array.v@[grid_index(bw as int, bj, bi)],
        decreases n - k,
    {
        proof {
            assert(gbj < bh) by {
                if gbj >= bh {
                    assert(gbj * bw + gbi >= bh * bw) by (nonlinear_arith)
                        requires
                            gbj >= bh,
                            bw >= 0,
                            gbi >= 0,
                    ;
                    assert(bh * bw == bw * bh) by (nonlinear_arith);
                }
            }
            assert(0 <= 2 * gbj * width) by (nonlinear_arith)
                requires
                    gbj >= 0,
                    width >= 0,
            ;
            if k == 0 {
                assert(gbj == 0 && gbi == 0) by (nonlinear_arith)
                    requires
                        0 == gbj * bw + gbi,
                        gbj >= 0,
                        0 <= gbi < bw,
                ;
                assert(grid_index(width as int, 2 * gbj, 2 * gbi) == 0) by (nonlinear_arith)
                    requires
                        gbj == 0,
                        gbi == 0,
                ;
            }
            if k > 0 && gbi > 0 {
                vstd::arithmetic::div_mod::lemma_fundamental_div_mod_converse(
                    counter as int,
                    width as int,
                    2 * gbj,
                    2 * gbi,
                );
            } else if k > 0 {
                assert(gbj >= 1) by {
                    if gbj == 0 {
                        assert(gbj * bw == 0) by (nonlinear_arith)
                            requires
                                gbj == 0,
                        ;
                    }
                }
                assert(counter == (2 * gbj - 1) * width) by (nonlinear_arith)
                    requires
                        counter + width == (2 * gbj) * width,
                ;
                assert(counter > 0) by (nonlinear_arith)
                    requires
                        counter == (2 * gbj - 1) * width,
                        gbj >= 1,
                        width > 0,
                ;
                vstd::arithmetic::div_mod::lemma_fundamental_div_mod_converse(
                    counter as int,
                    width as int,
                    2 * gbj - 1,
                    0,
                );
            }
            lemma_grid_index_bound(width as int, height as int, 2 * gbj + 1, 2 * gbi + 1);
            assert((2 * gbj + 1) * width == 2 * gbj * width + width) by (nonlinear_arith);
        }
        if counter == 0 {
            counter = 0;
        } else if counter % width == 0 {
            counter += width;
        }
        assert(counter == grid_index(width as int, 2 * gbj, 2 * gbi));
        let curr_block = transformed_array.v[k];
        let ghost before = working_vec@;
        working_vec[counter] = curr_block.zero_zero;
        working_vec[counter + 1] = curr_block.zero_one;
        working_vec[counter + width] = curr_block.one_zero;
        working_vec[counter + width + 1] = curr_block.one_one;
        proof {
            let w = width as int;
            assert forall|bi: int, bj: int|
                0 <= bi < bw && 0 <= bj < bh && grid_index(bw as int, bj, bi) < k + 1
                    implies #[trigger] quad_at(working_vec@, w, bi, bj)
                    == transformed_array.v@[grid_index(bw as int, bj, bi)] by {
                if bi == gbi && bj == gbj {
                } else {
                    if grid_index(bw as int, bj, bi) == k {
                        lemma_grid_index_injective(bw as int, bj, bi, gbj, gbi);
                    }
                    lemma_block_cells_apart(w, height as int, bi, bj, gbi, gbj, 0, 0);
                    lemma_block_cells_apart(w, height as int, bi, bj, gbi, gbj, 0, 1);
                    lemma_block_cells_apart(w, height as int, bi, bj, gbi, gbj, 1, 0);
                    lemma_block_cells_apart(w, height as int, bi, bj, gbi, gbj, 1, 1);
                    assert(working_vec@[grid_index(w, 2 * bj, 2 * bi)] == before[grid_index(w, 2 * bj, 2 * bi)]);
                    assert(working_vec@[grid_index(w, 2 * bj, 2 * bi + 1)] == before[grid_index(w, 2 * bj, 2 * bi + 1)]);
                    assert(working_vec@[grid_index(w, 2 * bj + 1, 2 * bi)] == before[grid_index(w, 2 * bj + 1, 2 * bi)]);
                    assert(working_vec@[grid_index(w, 2 * bj + 1, 2 * bi + 1)] == before[grid_index(w, 2 * bj + 1, 2 * bi + 1)]);
                    assert(quad_at(before, w, bi, bj) == transformed_array.v@[grid_index(bw as int, bj, bi)]);
                }
            }
            if gbi + 1 == bw {
                assert(2 * gbj * width + 2 * (bw - 1) + 2 + width == 2 * (gbj + 1) * width)
                    by (nonlinear_arith)
                    requires
                        width == 2 * bw,
                ;
                gbi = 0;
                gbj = gbj + 1;
                assert(k + 1 == grid_index(bw as int, gbj, gbi)) by (nonlinear_arith)
                    requires
                        k == (gbj - 1) * bw + (bw - 1),
                        gbi == 0,
                ;
            } else {
                gbi = gbi + 1;
            }
        }
        counter += 2;
        k += 1;
    }
    proof {
        assert forall|bi: int, bj: int| 0 <= bi < bw && 0 <= bj < bh implies #[trigger] grid_index(
            bw as int,
            bj,
            bi,
        ) < k by {
            lemma_grid_index_bound(bw as int, bh as int, bj, bi);
            assert(bw * bh == bh * bw) by (nonlinear_arith);
        }
    }
    Array2 { v: working_vec, width, height }
}

/// A pixel of one block is none of the pixels of another block.
proof fn lemma_block_cells_apart(
    w: int,
    h: int,
    bi: int,
    bj: int,
    gbi: int,
    gbj: int,
    dy: int,
    dx: int,
)
    requires
        0 <= bi,
        0 <= gbi,
        2 * bi + 1 < w,
        2 * gbi + 1 < w,
        0 <= bj,
        0 <= gbj,
        2 * bj + 1 < h,
        bi != gbi || bj != gbj,
        0 <= dy < 2,
        0 <= dx < 2,
    ensures
        0 <= grid_index(w, 2 * bj + dy, 2 * bi + dx) < w * h,
        grid_index(w, 2 * bj + dy, 2 * bi + dx) != grid_index(w, 2 * gbj, 2 * gbi),
        grid_index(w, 2 * bj + dy, 2 * bi + dx) != grid_index(w, 2 * gbj, 2 * gbi + 1),
        grid_index(w, 2 * bj + dy, 2 * bi + dx) != grid_index(w, 2 * gbj + 1, 2 * gbi),
        grid_index(w, 2 * bj + dy, 2 * bi + dx) != grid_index(w, 2 * gbj + 1, 2 * gbi + 1),
{
    let (y, x) = (2 * bj + dy, 2 * bi + dx);
    lemma_grid_index_bound(w, h, y, x);
    if grid_index(w, y, x) == grid_index(w, 2 * gbj, 2 * gbi) {
        lemma_grid_index_injective(w, y, x, 2 * gbj, 2 * gbi);
    }
    if grid_index(w, y, x) == grid_index(w, 2 * gbj, 2 * gbi + 1) {
        lemma_grid_index_injective(w, y, x, 2 * gbj, 2 * gbi + 1);
    }
    if grid_index(w, y, x) == grid_index(w, 2 * gbj + 1, 2 * gbi) {
        lemma_grid_index_injective(w, y, x, 2 * gbj + 1, 2 * gbi);
    }
    if grid_index(w, y, x) == grid_index(w, 2 * gbj + 1, 2 * gbi + 1) {
        lemma_grid_index_injective(w, y, x, 2 * gbj + 1, 2 * gbi + 1);
    }
}

impl<T: Copy> Array2<T> {
    /// Drops the last column when the width is odd and the last row when
    /// the height is odd, so that the image splits into 2x2 blocks.
    pub fn trim(&mut self)
        requires
            is_image(*old(self)),
        ensures
            final(self).width == old(self).width - old(self).width % 2,
            final(self).height == old(self).height - old(self).height % 2,
            is_image(*final(self)),
            forall|x: int, y: int|
                0 <= x < final(self).width && 0 <= y < final(self).height
                    ==> #[trigger] final(self).v@[grid_index(final(self).width as int, y, x)]
                    == old(self).v@[grid_index(old(self).width as int, y, x)],
    {
        let w = self.width;
        let h = self.height;
        let nw = w - w % 2;
        let nh = h - h % 2;
        let mut out: Vec<T> = Vec::new();
        let mut y: usize = 0;
        while y < nh
            invariant
                nw <= w,
                nh <= h,
                self.width == w,
                self.height == h,
                self.v@.len() == w * h,
                y <= nh,
                out@.len() == y * nw,
                forall|xx: int, yy: int|
                    0 <= xx < nw && 0 <= yy < y ==> #[trigger] out@[grid_index(nw as int, yy, xx)]
                        == self.v@[grid_index(w as int, yy, xx)],
            decreases nh - y,
        {
            let mut x: usize = 0;
            while x < nw
                invariant
                    nw <= w,
                    nh <= h,
                    self.width == w,
                    self.height == h,
                    self.v@.len() == w * h,
                    y < nh,
                    x <= nw,
                    out@.len() == y * nw + x,
                    forall|xx: int, yy: int|
                        0 <= xx < nw && 0 <= yy < y ==> #[trigger] out@[grid_index(nw as int, yy, xx)]
                            == self.v@[grid_index(w as int, yy, xx)],
                    forall|xx: int| 0 <= xx < x ==> #[trigger] out@[grid_index(nw as int, y as int, xx)]
                        == self.v@[grid_index(w as int, y as int, xx)],
                decreases nw - x,
            {
                proof {
                    lemma_grid_index_bound(w as int, h as int, y as int, x as int);
                    assert(0 <= y * w <= y * w + x) by (nonlinear_arith)
                        requires
                            0 <= x,
                            0 <= y,
                            0 <= w,
                    ;
                }
                let len = self.v.len();
                assert(y * w + x < len);
                let p = self.v[y * w + x];
                proof {
                    assert forall|xx: int, yy: int| 0 <= xx < nw && 0 <= yy < y implies grid_index(
                        nw as int,
                        yy,
                        xx,
                    ) < out@.len() by {
                        lemma_grid_index_order(nw as int, yy, xx, y as int, x as int);
                    }
                    assert forall|xx: int| 0 <= xx < x implies grid_index(nw as int, y as int, xx)
                        < out@.len() by {
                        lemma_grid_index_order(nw as int, y as int, xx, y as int, x as int);
                    }
                }
                out.push(p);
                x += 1;
            }
            proof {
                assert((y + 1) * nw == y * nw + nw) by (nonlinear_arith);
            }
            y += 1;
        }
        proof {
            assert(nh * nw == nw * nh) by (nonlinear_arith);
        }
        self.v = out;
        self.width = nw;
        self.height = nh;
    }
}

/// Every storage position of an image of even width and height is a pixel
/// of exactly one block.
proof fn lemma_cell_of_position(w: int, h: int, t: int) -> (cell: (int, int, int, int))
    requires
        w > 0,
        h >= 0,
        w % 2 == 0,
        h % 2 == 0,
        0 <= t < w * h,
    ensures
        ({
            let (bi, bj, dx, dy) = cell;
            &&& 0 <= bi < w / 2
            &&& 0 <= bj < h / 2
            &&& 0 <= dx < 2
            &&& 0 <= dy < 2
            &&& t == grid_index(w, 2 * bj + dy, 2 * bi + dx)
        }),
{
    let y = t / w;
    let x = t % w;
    vstd::arithmetic::div_mod::lemma_fundamental_div_mod(t, w);
    assert(y < h) by (nonlinear_arith)
        requires
            t == w * y + x,
            0 <= x < w,
            t < w * h,
            w > 0,
    ;
    assert(0 <= y) by (nonlinear_arith)
        requires
            t == w * y + x,
            x < w,
            t >= 0,
            w > 0,
    ;
    assert(w * y == y * w) by (nonlinear_arith);
    (x / 2, y / 2, x % 2, y % 2)
}

/// An image is determined by its blocks: two images with the same blocks
/// have the same width, height and pixels.
pub proof fn lemma_blocks_determine_image<T>(image1: Array2<T>, image2: Array2<T>, blocks: Array2<Quad<T>>)
    requires
        tiles(image1, blocks),
        tiles(image2, blocks),
    ensures
        image1.width == image2.width,
        image1.height == image2.height,
        image1.v@ == image2.v@,
{
    let w = image1.width as int;
    let h = image1.height as int;
    assert forall|t: int| 0 <= t < image1.v@.len() implies image1.v@[t] == image2.v@[t] by {
        if w == 0 {
            assert(w * h == 0) by (nonlinear_arith)
                requires
                    w == 0,
            ;
        }
        let (bi, bj, dx, dy) = lemma_cell_of_position(w, h, t);
        assert(quad_at(image1.v@, w, bi, bj) == blocks.v@[grid_index(blocks.width as int, bj, bi)]);
        assert(quad_at(image2.v@, w, bi, bj) == blocks.v@[grid_index(blocks.width as int, bj, bi)]);
    }
    assert(image1.v@ =~= image2.v@);
}

/// The blocks of an image are determined by it: two arrays of blocks of
/// the same image have the same width, height and blocks.
pub proof fn lemma_image_determines_blocks<T>(image: Array2<T>, blocks1: Array2<Quad<T>>, blocks2: Array2<Quad<T>>)
    requires
        tiles(image, blocks1),
        tiles(image, blocks2),
    ensures
        blocks1.width == blocks2.width,
        blocks1.height == blocks2.height,
        blocks1.v@ == blocks2.v@,
{
    let bw = blocks1.width as int;
    let bh = blocks1.height as int;
    assert forall|k: int| 0 <= k < blocks1.v@.len() implies blocks1.v@[k] == blocks2.v@[k] by {
        if bw == 0 {
            assert(bw * bh == 0) by (nonlinear_arith)
                requires
                    bw == 0,
            ;
        }
        vstd::arithmetic::div_mod::lemma_fundamental_div_mod(k, bw);
        let bj = k / bw;
        let bi = k % bw;
        assert(0 <= bj < bh) by (nonlinear_arith)
            requires
                k == bw * bj + bi,
                0 <= bi < bw,
                0 <= k < bw * bh,
        ;
        assert(bw * bj == bj * bw) by (nonlinear_arith);
        assert(quad_at(image.v@, image.width as int, bi, bj) == blocks1.v@[grid_index(bw, bj, bi)]);
        assert(quad_at(image.v@, image.width as int, bi, bj) == blocks2.v@[grid_index(bw, bj, bi)]);
    }
    assert(blocks1.v@ =~= blocks2.v@);
}

/// In an image and its blocks, the block in column `bi` and row `bj` of
/// blocks holds, as its top-left, top-right, bottom-left and bottom-right
/// pixels, the pixels at storage positions `y * width + x` with `x` in
/// `2 * bi, 2 * bi + 1` and `y` in `2 * bj, 2 * bj + 1`; the block itself
/// stands at position `bj * (width / 2) + bi` of the blocks.
pub proof fn lemma_tile_pixels<T>(image: Array2<T>, blocks: Array2<Quad<T>>, bi: int, bj: int)
    requires
        tiles(image, blocks),
        0 <= bi < blocks.width,
        0 <= bj < blocks.height,
    ensures
        0 <= bj * blocks.width + bi < blocks.v@.len(),
        0 <= (2 * bj + 1) * image.width + 2 * bi + 1 < image.v@.len(),
        blocks.v@[bj * blocks.width + bi].zero_zero == image.v@[(2 * bj) * image.width + 2 * bi],
        blocks.v@[bj * blocks.width + bi].zero_one == image.v@[(2 * bj) * image.width + 2 * bi + 1],
        blocks.v@[bj * blocks.width + bi].one_zero == image.v@[(2 * bj + 1) * image.width + 2 * bi],
        blocks.v@[bj * blocks.width + bi].one_one == image.v@[(2 * bj + 1) * image.width + 2 * bi
            + 1],
{
    lemma_grid_index_bound(blocks.width as int, blocks.height as int, bj, bi);
    lemma_grid_index_bound(image.width as int, image.height as int, 2 * bj + 1, 2 * bi + 1);
    assert(quad_at(image.v@, image.width as int, bi, bj) == blocks.v@[grid_index(
        blocks.width as int,
        bj,
        bi,
    )]);
}

} // verus!
