//! A two-dimensional array stored in one vector, with row-major and
//! column-major traversal.

use vstd::prelude::*;

verus! {

/// The order in which an [`Array2Iter`] visits the elements.
pub enum TypeOfIteration {
    RowMajor,
    ColumnMajor,
}

/// A two-dimensional array stored in one vector.
#[derive(Clone)]
pub struct Array2<T> {
    pub v: Vec<T>,
    pub width: usize,
    pub height: usize,
}

/// A traversal of the elements of an [`Array2`].
///
/// Row-major traversal hands out the elements in the order in which they
/// are stored. Column-major traversal treats the storage as rows of `dim`
/// elements each and hands out column by column.
pub struct Array2Iter<'a, T> {
    pub v: &'a [T],
    pub col: usize,
    pub row: usize,
    pub dim: usize,
    pub type_of_iter: TypeOfIteration,
}

/// The elements of `v`, read as `v.len() / dim` rows of `dim` elements,
/// column by column, starting at row `row` of column `col`.
pub open spec fn column_major_from<T>(v: Seq<T>, dim: int, rows: int, col: int, row: int) -> Seq<T>
    decreases dim - col, rows - row,
{
    if col >= dim {
        Seq::empty()
    } else if row >= rows {
        column_major_from(v, dim, rows, col + 1, 0)
    } else {
        seq![v[row * dim + col]] + column_major_from(v, dim, rows, col, row + 1)
    }
}

/// The elements of `v`, read as `v.len() / dim` rows of `dim` elements,
/// column by column.
pub open spec fn column_major<T>(v: Seq<T>, dim: nat) -> Seq<T> {
    column_major_from(v, dim as int, v.len() as int / dim as int, 0, 0)
}

/// Position of the element at row `r` and column `c` in a row-major
/// storage whose rows hold `width` elements.
pub open spec fn grid_index(width: int, r: int, c: int) -> int {
    r * width + c
}

proof fn lemma_column_major_from<T>(v: Seq<T>, d: int, rs: int, col: int, row: int)
    requires
        0 <= col < d,
        0 <= row <= rs,
    ensures
        column_major_from(v, d, rs, col, row).len() == (d - col) * rs - row,
        forall|k: int|
            0 <= k < column_major_from(v, d, rs, col, row).len() ==> #[trigger] column_major_from(
                v,
                d,
                rs,
                col,
                row,
            )[k] == v[((k + row) % rs) * d + col + (k + row) / rs],
    decreases d - col, rs - row,
{
    let s = column_major_from(v, d, rs, col, row);
    if row >= rs {
        assert((d - col) * rs - rs == (d - col - 1) * rs) by (nonlinear_arith);
        if col + 1 < d {
            lemma_column_major_from(v, d, rs, col + 1, 0);
            if rs > 0 {
                assert forall|k: int| 0 <= k < s.len() implies #[trigger] s[k] == v[((k + row) % rs)
                    * d + col + (k + row) / rs] by {
                    vstd::arithmetic::div_mod::lemma_mod_add_multiples_vanish(k, rs);
                    vstd::arithmetic::div_mod::lemma_div_plus_one(k, rs);
                }
            }
        } else {
            assert(column_major_from(v, d, rs, col + 1, 0) =~= Seq::<T>::empty());
            assert((d - col - 1) * rs == 0);
        }
    } else {
        lemma_column_major_from(v, d, rs, col, row + 1);
        assert forall|k: int| 0 <= k < s.len() implies #[trigger] s[k] == v[((k + row) % rs) * d
            + col + (k + row) / rs] by {
            if k == 0 {
                vstd::arithmetic::div_mod::lemma_fundamental_div_mod_converse(row, rs, 0, row);
            } else {
                assert(s[k] == column_major_from(v, d, rs, col, row + 1)[k - 1]);
            }
        }
    }
}

/// Column-major order is the transpose of the storage: the element at row
/// `r` and column `c` of the rows of `dim` elements stands at position
/// `c * rows + r` of the column-major sequence, and every element of the
/// complete rows appears exactly once.
pub proof fn lemma_column_major_transposes<T>(v: Seq<T>, dim: nat)
    requires
        dim > 0,
    ensures
        column_major(v, dim).len() == dim * (v.len() / dim),
        forall|c: int, r: int|
            0 <= c < dim && 0 <= r < v.len() / dim ==> #[trigger] column_major(v, dim)[grid_index(
                (v.len() / dim) as int,
                c,
                r,
            )] == v[grid_index(dim as int, r, c)],
{
    let rs = (v.len() / dim) as int;
    let d = dim as int;
    lemma_column_major_from(v, d, rs, 0, 0);
    assert forall|c: int, r: int| 0 <= c < d && 0 <= r < rs implies #[trigger] column_major(
        v,
        dim,
    )[grid_index(rs, c, r)] == v[grid_index(d, r, c)] by {
        let k = c * rs + r;
        assert(0 <= k < d * rs) by (nonlinear_arith)
            requires
                0 <= c < d,
                0 <= r < rs,
                k == c * rs + r,
        ;
        vstd::arithmetic::div_mod::lemma_fundamental_div_mod_converse(k, rs, c, r);
    }
}

impl<'a, T> Array2Iter<'a, T> {
    /// Number of complete rows of `dim` elements in the storage.
    pub open spec fn rows(self) -> int {
        self.v@.len() as int / self.dim as int
    }

    /// The column and row that a column-major step reads from: a finished
    /// column moves the traversal to the top of the next one.
    pub open spec fn next_position(self) -> (int, int) {
        if self.row >= self.rows() {
            (self.col + 1, 0)
        } else {
            (self.col as int, self.row as int)
        }
    }

    /// The next call of `next` reads inside the storage and does not overflow.
    pub open spec fn can_advance(self) -> bool {
        match self.type_of_iter {
            TypeOfIteration::RowMajor => true,
            TypeOfIteration::ColumnMajor => {
                let (c, r) = self.next_position();
                &&& self.dim > 0
                &&& self.row >= self.rows() ==> self.col < usize::MAX
                &&& c < self.dim ==> r * self.dim + c < self.v@.len()
            },
        }
    }

    /// The traversal is in a state from which every later step reads inside
    /// the storage: any row-major state, or a column-major one over at least
    /// one complete row that has not run past the last column.
    pub open spec fn in_order(self) -> bool {
        match self.type_of_iter {
            TypeOfIteration::RowMajor => true,
            TypeOfIteration::ColumnMajor => {
                &&& self.dim > 0
                &&& self.rows() > 0
                &&& (self.col < self.dim || (self.col == self.dim && self.row < self.rows()))
            },
        }
    }

    /// The elements that the traversal hands out from its present state on.
    pub open spec fn remaining(self) -> Seq<T> {
        match self.type_of_iter {
            TypeOfIteration::RowMajor => {
                if self.col < self.v@.len() {
                    self.v@.subrange(self.col as int, self.v@.len() as int)
                } else {
                    Seq::empty()
                }
            },
            TypeOfIteration::ColumnMajor => column_major_from(
                self.v@,
                self.dim as int,
                self.rows(),
                self.col as int,
                self.row as int,
            ),
        }
    }

    /// A traversal of `v` at its first element.
    pub fn new(v: &'a [T], d: usize, toi: TypeOfIteration) -> (it: Self)
        ensures
            it.v@ == v@,
            it.col == 0,
            it.row == 0,
            it.dim == d,
            it.type_of_iter == toi,
    {
        Self { v, col: 0, dim: d, row: 0, type_of_iter: toi }
    }

    /// Hands out the next element, or `None` once the traversal is done.
    pub fn next(&mut self) -> (r: Option<&'a T>)
        requires
            old(self).can_advance(),
        ensures
            final(self).v == old(self).v,
            final(self).dim == old(self).dim,
            final(self).type_of_iter == old(self).type_of_iter,
            old(self).type_of_iter is RowMajor ==> {
                if old(self).col < old(self).v@.len() {
                    &&& r == Some(&old(self).v@[old(self).col as int])
                    &&& final(self).col == old(self).col + 1
                    &&& final(self).row == old(self).col
                } else {
                    &&& r is None
                    &&& final(self).col == old(self).col
                    &&& final(self).row == old(self).row
                }
            },
            old(self).type_of_iter is ColumnMajor ==> {
                let (c, w) = old(self).next_position();
                &&& final(self).col == c
                &&& c < old(self).dim ==> r == Some(&old(self).v@[w * old(self).dim + c])
                    && final(self).row == w + 1
                &&& c >= old(self).dim ==> r is None && final(self).row == w
            },
            old(self).in_order() ==> {
                &&& final(self).in_order()
                &&& match r {
                    Some(x) => old(self).remaining() == seq![*x] + final(self).remaining(),
                    None => old(self).remaining() == Seq::<T>::empty()
                        && final(self).remaining() == Seq::<T>::empty(),
                }
            },
    {
        let v: &'a [T] = self.v;
        match self.type_of_iter {
            TypeOfIteration::RowMajor => {
                if self.col < v.len() {
                    self.row = self.col;
                    self.col += 1;
                    proof {
                        let s = old(self).v@;
                        let c = old(self).col as int;
                        assert(s.subrange(c, s.len() as int) =~= seq![s[c]] + s.subrange(
                            c + 1,
                            s.len() as int,
                        ));
                    }
                    return Some(&v[self.row]);
                } else {
                    return None;
                }
            },
            TypeOfIteration::ColumnMajor => {
                if self.row >= v.len() / self.dim {
                    self.col += 1;
                    self.row = 0;
                }
                proof {
                    if old(self).in_order() {
                        let s = old(self).v@;
                        let (d, rs) = (old(self).dim as int, old(self).rows());
                        let (c0, w0) = (old(self).col as int, old(self).row as int);
                        if w0 >= rs {
                            assert(column_major_from(s, d, rs, c0, w0) == column_major_from(
                                s,
                                d,
                                rs,
                                c0 + 1,
                                0,
                            ));
                        }
                        if self.col < self.dim {
                            let (c, w) = (self.col as int, self.row as int);
                            assert(column_major_from(s, d, rs, c, w) == seq![s[w * d + c]]
                                + column_major_from(s, d, rs, c, w + 1));
                        }
                    }
                }
                if self.col < self.dim {
                    let r = &v[self.row * self.dim + self.col];
                    self.row += 1;
                    return Some(r);
                } else {
                    return None;
                }
            },
        }
    }
}

impl<T> Array2<T> {
    /// An empty array of width and height zero.
    pub fn new() -> (a: Self)
        ensures
            a.v@ == Seq::<T>::empty(),
            a.width == 0,
            a.height == 0,
    {
        Array2 { v: Vec::<T>::new(), width: 0, height: 0 }
    }

    /// An array over `vec` whose width and height are both `dim`; the
    /// length of `vec` is not checked against them.
    pub fn new_h_w(vec: Vec<T>, dim: usize) -> (a: Self)
        ensures
            a.v@ == vec@,
            a.width == dim,
            a.height == dim,
    {
        Array2 { v: vec, width: dim, height: dim }
    }

    /// An array of `height` rows of `width` elements over `values`, stored
    /// row by row, if `values` holds exactly `width * height` elements.
    pub fn from_row_major(width: usize, height: usize, values: Vec<T>) -> (r: Option<Self>)
        ensures
            r is Some <==> width * height == values@.len(),
            r matches Some(a) ==> a.v@ == values@ && a.width == width && a.height == height,
    {
        let len = values.len();
        match width.checked_mul(height) {
            Some(n) => {
                if n == len {
                    Some(Array2 { v: values, width, height })
                } else {
                    None
                }
            },
            None => None,
        }
    }

    /// The element at position `x * height + y` of the storage, if there is one.
    pub fn at(&self, x: usize, y: usize) -> (r: Option<&T>)
        requires
            x * self.height + y <= usize::MAX,
        ensures
            r == (if x * self.height + y < self.v@.len() {
                Some(&self.v@[x * self.height + y])
            } else {
                None
            }),
    {
        let loction = x * self.height + y;
        if loction < self.v.len() {
            return Some(&self.v[loction]);
        } else {
            None
        }
    }

    /// A traversal of the elements in the given order; a column-major one
    /// reads the storage as rows of `height` elements.
    pub fn make_iter(&self, toi: TypeOfIteration) -> (it: Array2Iter<'_, T>)
        ensures
            it.v@ == self.v@,
            it.col == 0,
            it.row == 0,
            it.dim == self.height,
            it.type_of_iter == toi,
            toi is RowMajor ==> it.remaining() == self.v@,
            toi is ColumnMajor ==> it.remaining() == column_major(self.v@, self.height as nat),
    {
        let it = Array2Iter::new(self.v.as_slice(), self.height, toi);
        proof {
            assert(self.v@.subrange(0, self.v@.len() as int) =~= self.v@);
        }
        it
    }
}

impl<T> Default for Array2<T> {
    fn default() -> (a: Self)
        ensures
            a.v@ == Seq::<T>::empty(),
            a.width == 0,
            a.height == 0,
    {
        Self::new()
    }
}

} // verus!
