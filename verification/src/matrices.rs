use crate::arith::to_int;
use crate::arith::{det_fits, lemma_max_abs, lemma_mul_abs_bound, max_abs};
use crate::determinants::{cof, exact_root, is_perfect_square, sq, Determinant};
use crate::Errors;
use vstd::pervasive::VecAdditionalExecFns;
use vstd::prelude::*;

verus! {

/// A rectangular grid of values in row-major order, with a 1-based `(row,
/// column)` addressing scheme and an `(rows, columns)` order pair.
pub struct Matrix {
    items: Vec<i64>,
    order: (u32, u32),
}

impl Matrix {
    /// The grid's values, as mathematical integers, in row-major order.
    pub closed spec fn grid(&self) -> Seq<int> {
        to_int(self.items@)
    }

    /// The number of rows.
    pub closed spec fn rows(&self) -> nat {
        self.order.0 as nat
    }

    /// The number of columns.
    pub closed spec fn cols(&self) -> nat {
        self.order.1 as nat
    }

    /// The grid holds exactly `rows * cols` values.
    pub open spec fn wf(&self) -> bool {
        self.grid().len() == self.rows() * self.cols() && self.rows() <= u32::MAX && self.cols()
            <= u32::MAX
    }

    /// `(i, j)` is a valid 1-based position.
    pub open spec fn in_range(&self, i: int, j: int) -> bool {
        1 <= i <= self.rows() && 1 <= j <= self.cols()
    }

    /// The value at 1-based position `(i, j)`.
    pub open spec fn entry(&self, i: int, j: int) -> int
        recommends
            self.wf(),
            self.in_range(i, j),
    {
        self.grid()[(i - 1) * self.cols() + (j - 1)]
    }

    /// Build a matrix from `items` laid out row by row in the given order.
    /// Succeeds exactly when the item count matches the order.
    pub fn new(items: Vec<i64>, order: (u32, u32)) -> (r: Result<Matrix, Errors>)
        ensures
            items@.len() == order.0 * order.1 ==> (r matches Ok(m) && m.wf() && m.grid()
                == to_int(items@) && m.rows() == order.0 && m.cols() == order.1),
            items@.len() != order.0 * order.1 ==> r == Err::<Matrix, Errors>(
                Errors::InappropriateNumberOfItems,
            ),
    {
        proof {
            assert((order.0 as int) * (order.1 as int) <= 0xffff_ffff * 0xffff_ffff)
                by (nonlinear_arith)
                requires
                    order.0 <= 0xffff_ffff,
                    order.1 <= 0xffff_ffff,
            ;
        }
        if items.len() as u64 == (order.0 as u64) * (order.1 as u64) {
            Ok(Matrix { items, order })
        } else {
            Err(Errors::InappropriateNumberOfItems)
        }
    }

    /// The `(rows, columns)` order pair.
    pub fn order(&self) -> (r: (u32, u32))
        ensures
            r.0 as nat == self.rows(),
            r.1 as nat == self.cols(),
    {
        self.order
    }

    /// A copy of the grid's values in row-major order.
    pub fn items(&self) -> (r: Vec<i64>)
        ensures
            to_int(r@) == self.grid(),
    {
        self.items.clone()
    }

    /// The matrix has more columns than rows.
    pub fn is_horizontal(&self) -> (r: bool)
        ensures
            r == (self.cols() > self.rows()),
    {
        self.order.1 > self.order.0
    }

    /// The matrix has more rows than columns.
    pub fn is_vertical(&self) -> (r: bool)
        ensures
            r == (self.rows() > self.cols()),
    {
        self.order.0 > self.order.1
    }

    /// The value at 1-based position `(i, j)`. Fails with `IndexOutOfRange`
    /// exactly when `(i, j)` lies outside the matrix.
    pub fn get(&self, i: u32, j: u32) -> (r: Result<i64, Errors>)
        requires
            self.wf(),
        ensures
            self.in_range(i as int, j as int) ==> (r matches Ok(v) && v as int == self.entry(
                i as int,
                j as int,
            )),
            !self.in_range(i as int, j as int) ==> r == Err::<i64, Errors>(Errors::IndexOutOfRange),
    {
        if i == 0 || i > self.order.0 || j == 0 || j > self.order.1 {
            return Err(Errors::IndexOutOfRange);
        }
        let cols = self.order.1 as usize;
        let len = self.items.len();
        proof {
            lemma_flat_in_range(self.rows() as int, self.cols() as int, i as int, j as int);
        }
        let idx = (i as usize - 1) * cols + (j as usize - 1);
        assert(idx < len);
        Ok(self.items[idx])
    }

    /// Replace the value at 1-based position `(i, j)`. Fails with
    /// `IndexOutOfRange`, leaving the matrix unchanged, exactly when `(i, j)`
    /// lies outside the matrix.
    pub fn set(&mut self, i: u32, j: u32, new_value: i64) -> (r: Result<(), Errors>)
        requires
            old(self).wf(),
        ensures
            final(self).wf(),
            final(self).rows() == old(self).rows(),
            final(self).cols() == old(self).cols(),
            old(self).in_range(i as int, j as int) ==> (r matches Ok(u) && final(self).grid()
                == old(self).grid().update(
                (i - 1) * old(self).cols() + (j - 1),
                new_value as int,
            )),
            !old(self).in_range(i as int, j as int) ==> r == Err::<(), Errors>(
                Errors::IndexOutOfRange,
            ) && final(self).grid() == old(self).grid(),
    {
        if i == 0 || i > self.order.0 || j == 0 || j > self.order.1 {
            return Err(Errors::IndexOutOfRange);
        }
        let cols = self.order.1 as usize;
        let len = self.items.len();
        proof {
            lemma_flat_in_range(self.rows() as int, self.cols() as int, i as int, j as int);
        }
        let idx = (i as usize - 1) * cols + (j as usize - 1);
        assert(idx < len);
        self.items.set(idx, new_value);
        Ok(())
    }
}

/// A valid 1-based position's flat index lies within the grid, and so do the
/// intermediate products that compute it.
pub proof fn lemma_flat_in_range(rows: int, cols: int, i: int, j: int)
    requires
        1 <= i <= rows,
        1 <= j <= cols,
    ensures
        0 <= (i - 1) * cols,
        (i - 1) * cols + (j - 1) < rows * cols,
{
    assert(0 <= (i - 1) * cols && (i - 1) * cols + (j - 1) < rows * cols) by (nonlinear_arith)
        requires
            1 <= i <= rows,
            1 <= j <= cols,
    ;
}

/// The flat grid of an `n`-order matrix whose diagonal holds `v` and whose
/// other entries are 0.
pub open spec fn scalar_seq(v: int, n: nat) -> Seq<int> {
    Seq::new(
        n * n,
        |k: int|
            if k / (n as int) == k % (n as int) {
                v
            } else {
                0
            },
    )
}

/// The flat grid of the `n`-order identity matrix.
pub open spec fn identity_seq(n: nat) -> Seq<int> {
    scalar_seq(1, n)
}

/// The flat grid of the `n`-order matrix whose diagonal holds `vals` and
/// whose other entries are 0.
pub open spec fn diag_seq(vals: Seq<int>, n: nat) -> Seq<int> {
    Seq::new(
        n * n,
        |k: int|
            if k / (n as int) == k % (n as int) {
                vals[k / (n as int)]
            } else {
                0
            },
    )
}

/// The generator `f` admits the value stored at 1-based position `(i, j)`
/// of `m` as one of its possible results for `(i, j)`.
pub open spec fn generated_entry<F: Fn(u32, u32) -> i64>(f: F, m: Matrix, i: u32, j: u32) -> bool {
    call_ensures(f, (i, j), m.entry(i as int, j as int) as i64)
}

/// The generator `f` admits the value at flat position `(i-1)*cols + (j-1)`
/// of `s` as one of its possible results for `(i, j)`.
pub open spec fn pushed_entry<F: Fn(u32, u32) -> i64>(
    f: F,
    s: Seq<i64>,
    cols: nat,
    i: u32,
    j: u32,
) -> bool {
    call_ensures(f, (i, j), s[(i - 1) * cols + (j - 1)])
}

impl Matrix {
    /// Build a matrix of the given order whose entry at `(i, j)` is
    /// `f(i, j)`, calling `f` in row-major order.
    pub fn generate<F: Fn(u32, u32) -> i64>(f: F, order: (u32, u32)) -> (r: Matrix)
        requires
            order.0 * order.1 <= usize::MAX,
            forall|i: u32, j: u32|
                1 <= i <= order.0 && 1 <= j <= order.1 ==> #[trigger] call_requires(f, (i, j)),
        ensures
            r.wf(),
            r.rows() == order.0,
            r.cols() == order.1,
            forall|i: u32, j: u32|
                1 <= i <= order.0 && 1 <= j <= order.1 ==> #[trigger] generated_entry(f, r, i, j),
    {
        let rows = order.0;
        let cols = order.1;
        let mut items: Vec<i64> = Vec::new();
        let mut i: u32 = 0;
        while i < rows
            invariant
                i <= rows,
                order.0 * order.1 <= usize::MAX,
                rows == order.0,
                cols == order.1,
                items@.len() == i * cols,
                forall|i2: u32, j2: u32|
                    1 <= i2 <= i && 1 <= j2 <= cols ==> #[trigger] pushed_entry(
                        f,
                        items@,
                        cols as nat,
                        i2,
                        j2,
                    ),
                forall|i2: u32, j2: u32|
                    1 <= i2 <= rows && 1 <= j2 <= cols ==> #[trigger] call_requires(f, (i2, j2)),
            decreases rows - i,
        {
            let mut j: u32 = 0;
            proof {
                assert((i + 1) * cols == i * cols + cols) by (nonlinear_arith);
                assert(i * cols + cols <= rows * cols) by (nonlinear_arith)
                    requires
                        i < rows,
                ;
            }
            while j < cols
                invariant
                    i < rows,
                    j <= cols,
                    order.0 * order.1 <= usize::MAX,
                    rows == order.0,
                    cols == order.1,
                    items@.len() == i * cols + j,
                    forall|i2: u32, j2: u32|
                        1 <= i2 <= i && 1 <= j2 <= cols ==> #[trigger] pushed_entry(
                            f,
                            items@,
                            cols as nat,
                            i2,
                            j2,
                        ),
                    forall|j2: u32|
                        1 <= j2 <= j ==> #[trigger] pushed_entry(f, items@, cols as nat, (i + 1) as u32, j2),
                    forall|i2: u32, j2: u32|
                        1 <= i2 <= rows && 1 <= j2 <= cols ==> #[trigger] call_requires(
                            f,
                            (i2, j2),
                        ),
                decreases cols - j,
            {
                let v = f(i + 1, j + 1);
                proof {
                    assert(i * cols + j < rows * cols) by (nonlinear_arith)
                        requires
                            0 <= i < rows,
                            0 <= j < cols,
                    ;
                }
                let ghost pre = items@;
                items.push(v);
                proof {
                    assert forall|i2: u32, j2: u32|
                        1 <= i2 <= i && 1 <= j2 <= cols implies #[trigger] pushed_entry(
                        f,
                        items@,
                        cols as nat,
                        i2,
                        j2,
                    ) by {
                        let idx = (i2 - 1) * (cols as int) + (j2 - 1);
                        assert(0 <= idx < i * cols) by (nonlinear_arith)
                            requires
                                1 <= i2 <= i,
                                1 <= j2 <= cols,
                                idx == (i2 - 1) * (cols as int) + (j2 - 1),
                        ;
                        assert(pushed_entry(f, pre, cols as nat, i2, j2));
                        assert(items@[idx] == pre[idx]);
                    }
                    assert forall|j2: u32| 1 <= j2 <= j + 1 implies #[trigger] pushed_entry(
                        f,
                        items@,
                        cols as nat,
                        (i + 1) as u32,
                        j2,
                    ) by {
                        let idx = i * (cols as int) + (j2 - 1);
                        assert(((i + 1) as u32 - 1) * (cols as int) + (j2 - 1) == idx);
                        if j2 <= j {
                            assert(pushed_entry(f, pre, cols as nat, (i + 1) as u32, j2));
                            assert(items@[idx] == pre[idx]);
                        } else {
                            assert(idx == pre.len());
                            assert(items@[idx] == v);
                        }
                    }
                }
                j = j + 1;
            }
            i = i + 1;
        }
        let r = Matrix { items, order };
        proof {
            assert(r.grid().len() == rows * cols);
            assert forall|i2: u32, j2: u32|
                1 <= i2 <= order.0 && 1 <= j2 <= order.1 implies #[trigger] generated_entry(
                f,
                r,
                i2,
                j2,
            ) by {
                lemma_flat_in_range(rows as int, cols as int, i2 as int, j2 as int);
                assert(pushed_entry(f, r.items@, cols as nat, i2, j2));
                assert(r.entry(i2 as int, j2 as int) as i64 == r.items@[(i2 - 1) * cols + (j2
                    - 1)]);
            }
        }
        r
    }
}

/// The coordinates read off a flat index of an `rows x cols` grid lie
/// within the grid and rebuild the index.
pub proof fn lemma_grid_coords(rows: int, cols: int, k: int)
    requires
        cols >= 1,
        0 <= k < rows * cols,
    ensures
        0 <= k / cols < rows,
        0 <= k % cols < cols,
        (k / cols) * cols + (k % cols) == k,
{
    vstd::arithmetic::div_mod::lemma_mod_bound(k, cols);
    vstd::arithmetic::div_mod::lemma_div_pos_is_pos(k, cols);
    vstd::arithmetic::div_mod::lemma_fundamental_div_mod(k, cols);
    assert(k == cols * (k / cols) + (k % cols));
    assert(cols * (k / cols) == (k / cols) * cols) by (nonlinear_arith);
    if k / cols >= rows {
        assert((k / cols) * cols >= rows * cols) by (nonlinear_arith)
            requires
                k / cols >= rows,
                cols >= 1,
        ;
    }
}

impl Matrix {
    /// A 1-row matrix holding `items`.
    pub fn row_matrix(items: Vec<i64>) -> (r: Matrix)
        requires
            items@.len() <= u32::MAX,
        ensures
            r.wf(),
            r.rows() == 1,
            r.cols() == items@.len(),
            r.grid() == to_int(items@),
    {
        let cols = items.len() as u32;
        Matrix { items, order: (1, cols) }
    }

    /// A 1-column matrix holding `items`.
    pub fn column_matrix(items: Vec<i64>) -> (r: Matrix)
        requires
            items@.len() <= u32::MAX,
        ensures
            r.wf(),
            r.rows() == items@.len(),
            r.cols() == 1,
            r.grid() == to_int(items@),
    {
        let rows = items.len() as u32;
        Matrix { items, order: (rows, 1) }
    }

    /// A matrix of the given order filled with zeros.
    pub fn null_matrix(order: (u32, u32)) -> (r: Matrix)
        requires
            order.0 * order.1 <= usize::MAX,
        ensures
            r.wf(),
            r.rows() == order.0,
            r.cols() == order.1,
            forall|k: int| 0 <= k < r.grid().len() ==> r.grid()[k] == 0,
            forall|i: int, j: int| r.in_range(i, j) ==> r.entry(i, j) == 0,
    {
        let total = (order.0 as usize) * (order.1 as usize);
        let mut items: Vec<i64> = Vec::new();
        let mut k: usize = 0;
        while k < total
            invariant
                k <= total,
                items@.len() == k,
                forall|k2: int| 0 <= k2 < items@.len() ==> #[trigger] items@[k2] as int == 0,
            decreases total - k,
        {
            items.push(0);
            k = k + 1;
        }
        let r = Matrix { items, order };
        proof {
            assert forall|k2: int| 0 <= k2 < r.grid().len() implies r.grid()[k2] == 0 by {
                assert(r.grid()[k2] == items@[k2] as int);
            }
            assert forall|i: int, j: int| r.in_range(i, j) implies r.entry(i, j) == 0 by {
                lemma_flat_in_range(r.rows() as int, r.cols() as int, i, j);
            }
        }
        r
    }

    /// Arrange `items` as a square matrix. Succeeds exactly when the number
    /// of items is a perfect square; its root becomes the order.
    pub fn square_matrix(items: Vec<i64>) -> (r: Result<Matrix, Errors>)
        ensures
            is_perfect_square(items@.len()) ==> (r matches Ok(m) && m.wf() && m.grid() == to_int(
                items@,
            ) && m.rows() == m.cols() && m.rows() * m.cols() == items@.len()),
            !is_perfect_square(items@.len()) ==> r == Err::<Matrix, Errors>(
                Errors::InappropriateNumberOfItems,
            ),
    {
        let len = items.len();
        match exact_root(len) {
            Some(s) => {
                proof {
                    assert(s <= u32::MAX) by (nonlinear_arith)
                        requires
                            s * s == len,
                            0 <= s,
                            len <= usize::MAX,
                            usize::MAX <= 0xffff_ffff_ffff_ffff,
                    ;
                }
                Ok(Matrix { items, order: (s as u32, s as u32) })
            },
            None => Err(Errors::InappropriateNumberOfItems),
        }
    }

    /// A `size`-order matrix with `item` along the diagonal and zeros
    /// elsewhere.
    pub fn scalar_matrix(item: i64, size: u32) -> (r: Matrix)
        requires
            size * size <= usize::MAX,
        ensures
            r.wf(),
            r.rows() == size,
            r.cols() == size,
            r.grid() == scalar_seq(item as int, size as nat),
            forall|i: int, j: int|
                r.in_range(i, j) ==> r.entry(i, j) == (if i == j {
                    item as int
                } else {
                    0
                }),
    {
        let n = size as usize;
        let ghost target = scalar_seq(item as int, size as nat);
        proof {
            assert(n * n == size * size) by (nonlinear_arith)
                requires
                    n == size,
            ;
        }
        let total = n * n;
        let mut items: Vec<i64> = Vec::new();
        let mut k: usize = 0;
        while k < total
            invariant
                k <= total,
                n == size,
                total == n * n,
                target == scalar_seq(item as int, size as nat),
                items@.len() == k,
                forall|k2: int| 0 <= k2 < items@.len() ==> to_int(items@)[k2] == target[k2],
            decreases total - k,
        {
            proof {
                assert(n >= 1) by (nonlinear_arith)
                    requires
                        0 <= k < n * n,
                ;
            }
            let row = k / n;
            let col = k % n;
            if row == col {
                items.push(item);
            } else {
                items.push(0);
            }
            k = k + 1;
        }
        let r = Matrix { items, order: (size, size) };
        proof {
            assert(r.grid() =~= target);
            lemma_entry_of_diag_grid(r, item as int);
        }
        r
    }

    /// An identity matrix of the given order.
    pub fn identity_matrix(size: u32) -> (r: Matrix)
        requires
            size * size <= usize::MAX,
        ensures
            r.wf(),
            r.rows() == size,
            r.cols() == size,
            r.grid() == identity_seq(size as nat),
            forall|i: int, j: int|
                r.in_range(i, j) ==> r.entry(i, j) == (if i == j {
                    1int
                } else {
                    0int
                }),
    {
        Matrix::scalar_matrix(1, size)
    }

    /// A square matrix with `items` along the diagonal and zeros elsewhere;
    /// the order is the number of items.
    pub fn diagonal_matrix(items: Vec<i64>) -> (r: Matrix)
        requires
            items@.len() <= u32::MAX,
            items@.len() * items@.len() <= usize::MAX,
        ensures
            r.wf(),
            r.rows() == items@.len(),
            r.cols() == items@.len(),
            r.grid() == diag_seq(to_int(items@), items@.len()),
            forall|i: int, j: int|
                r.in_range(i, j) ==> r.entry(i, j) == (if i == j {
                    to_int(items@)[i - 1]
                } else {
                    0
                }),
    {
        let n = items.len();
        let size = n as u32;
        let ghost vals = to_int(items@);
        let ghost target = diag_seq(vals, n as nat);
        let total = n * n;
        let mut grid_items: Vec<i64> = Vec::new();
        let mut k: usize = 0;
        while k < total
            invariant
                k <= total,
                n == items@.len(),
                total == n * n,
                vals == to_int(items@),
                target == diag_seq(vals, n as nat),
                grid_items@.len() == k,
                forall|k2: int| 0 <= k2 < grid_items@.len() ==> to_int(grid_items@)[k2]
                    == target[k2],
            decreases total - k,
        {
            proof {
                assert(n >= 1) by (nonlinear_arith)
                    requires
                        0 <= k < n * n,
                ;
                assert(k / n < n) by {
                    lemma_grid_coords(n as int, n as int, k as int);
                }
            }
            let row = k / n;
            let col = k % n;
            let v = if row == col {
                items[row]
            } else {
                0
            };
            grid_items.push(v);
            k = k + 1;
        }
        let r = Matrix { items: grid_items, order: (size, size) };
        proof {
            assert(r.grid() =~= target);
            let ni = n as int;
            assert forall|i: int, j: int| r.in_range(i, j) implies r.entry(i, j) == (if i == j {
                vals[i - 1]
            } else {
                0
            }) by {
                lemma_flat_in_range(ni, ni, i, j);
                let k = (i - 1) * ni + (j - 1);
                vstd::arithmetic::div_mod::lemma_fundamental_div_mod_converse_div(k, ni, i - 1, j - 1);
                vstd::arithmetic::div_mod::lemma_fundamental_div_mod_converse_mod(k, ni, i - 1, j - 1);
            }
        }
        r
    }
}

/// In a grid shaped by `scalar_seq`, the 1-based entry view agrees with the
/// diagonal description.
proof fn lemma_entry_of_diag_grid(m: Matrix, v: int)
    requires
        m.wf(),
        m.rows() == m.cols(),
        m.grid() == scalar_seq(v, m.rows()),
    ensures
        forall|i: int, j: int|
            m.in_range(i, j) ==> m.entry(i, j) == (if i == j {
                v
            } else {
                0
            }),
{
    let n = m.rows() as int;
    assert forall|i: int, j: int| m.in_range(i, j) implies m.entry(i, j) == (if i == j {
        v
    } else {
        0
    }) by {
        lemma_flat_in_range(n, n, i, j);
        let k = (i - 1) * n + (j - 1);
        vstd::arithmetic::div_mod::lemma_fundamental_div_mod_converse_div(k, n, i - 1, j - 1);
        vstd::arithmetic::div_mod::lemma_fundamental_div_mod_converse_mod(k, n, i - 1, j - 1);
    }
}

/// The flat grid of the transpose of an `rows x cols` grid `s`: entry
/// `(i, j)` of the result (a `cols x rows` grid) is entry `(j, i)` of `s`
/// (all 0-based here).
pub open spec fn transpose_seq(s: Seq<int>, rows: nat, cols: nat) -> Seq<int> {
    Seq::new(
        rows * cols,
        |k: int|
            {
                let i = k / (rows as int);
                let j = k % (rows as int);
                s[j * cols + i]
            },
    )
}

impl Matrix {
    /// The diagonal of a square matrix, top-left to bottom-right. Fails with
    /// `TraceExistsOnlyForSquareMatrices` exactly when the matrix is not
    /// square.
    pub fn trace(&self) -> (r: Result<Vec<i64>, Errors>)
        requires
            self.wf(),
        ensures
            self.rows() == self.cols() ==> (r matches Ok(v) && v@.len() == self.rows() && forall|
                d: int,
            |
                0 <= d < self.rows() ==> #[trigger] v@[d] as int == self.entry(d + 1, d + 1)),
            self.rows() != self.cols() ==> r == Err::<Vec<i64>, Errors>(
                Errors::TraceExistsOnlyForSquareMatrices,
            ),
    {
        if self.order.0 != self.order.1 {
            return Err(Errors::TraceExistsOnlyForSquareMatrices);
        }
        let n = self.order.0 as usize;
        let len = self.items.len();
        let mut v: Vec<i64> = Vec::new();
        let mut d: usize = 0;
        while d < n
            invariant
                d <= n,
                n == self.rows(),
                self.wf(),
                self.rows() == self.cols(),
                self.items@.len() == n * n,
                n * n <= usize::MAX,
                v@.len() == d,
                forall|d2: int| 0 <= d2 < d ==> #[trigger] v@[d2] as int == self.entry(
                    d2 + 1,
                    d2 + 1,
                ),
            decreases n - d,
        {
            proof {
                lemma_flat_in_range(n as int, n as int, d + 1, d + 1);
            }
            let x = self.items[d * n + d];
            v.push(x);
            d = d + 1;
        }
        Ok(v)
    }

    /// The `i`-th row (1-based), left to right. Fails with `IndexOutOfRange`
    /// exactly when the matrix has no such row.
    pub fn get_row(&self, i: u32) -> (r: Result<Vec<i64>, Errors>)
        requires
            self.wf(),
        ensures
            1 <= i <= self.rows() ==> (r matches Ok(v) && v@.len() == self.cols() && forall|
                j: int,
            | 0 <= j < self.cols() ==> #[trigger] v@[j] as int == self.entry(i as int, j + 1)),
            !(1 <= i <= self.rows()) ==> r == Err::<Vec<i64>, Errors>(Errors::IndexOutOfRange),
    {
        if i == 0 || i > self.order.0 {
            return Err(Errors::IndexOutOfRange);
        }
        let cols = self.order.1 as usize;
        let len = self.items.len();
        let mut v: Vec<i64> = Vec::new();
        let mut j: usize = 0;
        while j < cols
            invariant
                j <= cols,
                cols == self.cols(),
                self.wf(),
                1 <= i <= self.rows(),
                self.items@.len() == self.rows() * self.cols(),
                self.rows() * self.cols() <= usize::MAX,
                v@.len() == j,
                forall|j2: int| 0 <= j2 < j ==> #[trigger] v@[j2] as int == self.entry(
                    i as int,
                    j2 + 1,
                ),
            decreases cols - j,
        {
            proof {
                lemma_flat_in_range(self.rows() as int, self.cols() as int, i as int, j + 1);
            }
            let x = self.items[(i as usize - 1) * cols + j];
            v.push(x);
            j = j + 1;
        }
        Ok(v)
    }

    /// The `j`-th column (1-based), top to bottom. Fails with
    /// `IndexOutOfRange` exactly when the matrix has no such column.
    pub fn get_column(&self, j: u32) -> (r: Result<Vec<i64>, Errors>)
        requires
            self.wf(),
        ensures
            1 <= j <= self.cols() ==> (r matches Ok(v) && v@.len() == self.rows() && forall|
                i: int,
            | 0 <= i < self.rows() ==> #[trigger] v@[i] as int == self.entry(i + 1, j as int)),
            !(1 <= j <= self.cols()) ==> r == Err::<Vec<i64>, Errors>(Errors::IndexOutOfRange),
    {
        if j == 0 || j > self.order.1 {
            return Err(Errors::IndexOutOfRange);
        }
        let rows = self.order.0 as usize;
        let cols = self.order.1 as usize;
        let len = self.items.len();
        let mut v: Vec<i64> = Vec::new();
        let mut i: usize = 0;
        while i < rows
            invariant
                i <= rows,
                rows == self.rows(),
                cols == self.cols(),
                self.wf(),
                1 <= j <= self.cols(),
                self.items@.len() == self.rows() * self.cols(),
                self.rows() * self.cols() <= usize::MAX,
                v@.len() == i,
                forall|i2: int| 0 <= i2 < i ==> #[trigger] v@[i2] as int == self.entry(
                    i2 + 1,
                    j as int,
                ),
            decreases rows - i,
        {
            proof {
                lemma_flat_in_range(self.rows() as int, self.cols() as int, i + 1, j as int);
            }
            let x = self.items[i * cols + (j as usize - 1)];
            v.push(x);
            i = i + 1;
        }
        Ok(v)
    }

    /// The transpose: a new matrix of swapped order whose entry `(i, j)` is
    /// this matrix's entry `(j, i)`. The receiver is left untouched.
    pub fn transpose(&self) -> (r: Matrix)
        requires
            self.wf(),
        ensures
            r.wf(),
            r.rows() == self.cols(),
            r.cols() == self.rows(),
            r.grid() == transpose_seq(self.grid(), self.rows(), self.cols()),
            forall|i: int, j: int| r.in_range(i, j) ==> r.entry(i, j) == self.entry(j, i),
    {
        let rows = self.order.0 as usize;
        let cols = self.order.1 as usize;
        let len = self.items.len();
        let ghost target = transpose_seq(self.grid(), self.rows(), self.cols());
        let mut items: Vec<i64> = Vec::new();
        let mut i: usize = 0;
        while i < cols
            invariant
                i <= cols,
                rows == self.rows(),
                cols == self.cols(),
                self.wf(),
                self.items@.len() == rows * cols,
                rows * cols <= usize::MAX,
                target == transpose_seq(self.grid(), self.rows(), self.cols()),
                items@.len() == i * rows,
                forall|k: int| 0 <= k < items@.len() ==> #[trigger] items@[k] as int == target[k],
            decreases cols - i,
        {
            let mut j: usize = 0;
            proof {
                assert(i * rows + rows == (i + 1) * rows) by (nonlinear_arith);
                assert((i + 1) * rows <= cols * rows) by (nonlinear_arith)
                    requires
                        i < cols,
                        rows >= 0,
                ;
            }
            while j < rows
                invariant
                    j <= rows,
                    i < cols,
                    rows == self.rows(),
                    cols == self.cols(),
                    self.wf(),
                    self.items@.len() == rows * cols,
                    rows * cols <= usize::MAX,
                    target == transpose_seq(self.grid(), self.rows(), self.cols()),
                    items@.len() == i * rows + j,
                    forall|k: int| 0 <= k < items@.len() ==> #[trigger] items@[k] as int
                        == target[k],
                decreases rows - j,
            {
                proof {
                    lemma_flat_in_range(rows as int, cols as int, j + 1, i + 1);
                    let k0 = (i * rows + j) as int;
                    assert(k0 < cols * rows) by (nonlinear_arith)
                        requires
                            0 <= i < cols,
                            0 <= j < rows,
                            k0 == i * rows + j,
                    ;
                    vstd::arithmetic::div_mod::lemma_fundamental_div_mod_converse_div(
                        k0,
                        rows as int,
                        i as int,
                        j as int,
                    );
                    vstd::arithmetic::div_mod::lemma_fundamental_div_mod_converse_mod(
                        k0,
                        rows as int,
                        i as int,
                        j as int,
                    );
                    assert(cols * rows == rows * cols) by (nonlinear_arith);
                }
                let x = self.items[j * cols + i];
                items.push(x);
                j = j + 1;
            }
            i = i + 1;
        }
        let r = Matrix { items, order: (self.order.1, self.order.0) };
        proof {
            assert(rows * cols == cols * rows) by (nonlinear_arith);
            assert(r.grid() =~= target);
            assert forall|i2: int, j2: int| r.in_range(i2, j2) implies r.entry(i2, j2)
                == self.entry(j2, i2) by {
                lemma_flat_in_range(cols as int, rows as int, i2, j2);
                let k = (i2 - 1) * (rows as int) + (j2 - 1);
                vstd::arithmetic::div_mod::lemma_fundamental_div_mod_converse_div(
                    k,
                    rows as int,
                    i2 - 1,
                    j2 - 1,
                );
                vstd::arithmetic::div_mod::lemma_fundamental_div_mod_converse_mod(
                    k,
                    rows as int,
                    i2 - 1,
                    j2 - 1,
                );
            }
        }
        r
    }
}

impl Matrix {
    /// Snapshot a square matrix's values into a `Determinant`. Fails with
    /// `IncorrectOrdersForOperation` exactly when the matrix is not square.
    pub fn to_determinant(&self) -> (r: Result<Determinant, Errors>)
        requires
            self.wf(),
        ensures
            self.rows() == self.cols() ==> (r matches Ok(d) && d.wf() && d.grid() == self.grid()
                && d.size_nat() == self.rows()),
            self.rows() != self.cols() ==> r == Err::<Determinant, Errors>(
                Errors::IncorrectOrdersForOperation,
            ),
    {
        if self.order.0 != self.order.1 {
            return Err(Errors::IncorrectOrdersForOperation);
        }
        let items = self.items.clone();
        proof {
            assert(sq(self.rows() as int) == items@.len());
        }
        match Determinant::new(items) {
            Ok(d) => {
                proof {
                    assert(d.size_nat() == self.rows()) by (nonlinear_arith)
                        requires
                            d.size_nat() * d.size_nat() == self.rows() * self.rows(),
                            d.size_nat() >= 0,
                            self.rows() >= 0,
                    ;
                }
                Ok(d)
            },
            Err(_) => {
                proof {
                    assert(false);
                }
                Err(Errors::IncorrectOrdersForOperation)
            },
        }
    }

    /// The adjugate: the transpose of the matrix of cofactors, each cofactor
    /// drawn from a fresh snapshot of the current values. Fails with
    /// `IncorrectOrdersForOperation` exactly when the matrix is not square.
    pub fn adjoint(&self) -> (r: Result<Matrix, Errors>)
        requires
            self.wf(),
            self.rows() == self.cols() ==> det_fits(self.grid(), self.rows()),
        ensures
            self.rows() == self.cols() ==> (r matches Ok(m) && m.wf() && m.rows() == self.rows()
                && m.cols() == self.cols() && forall|i: int, j: int|
                m.in_range(i, j) ==> #[trigger] m.entry(i, j) == cof(
                    self.grid(),
                    self.rows(),
                    j as nat,
                    i as nat,
                )),
            self.rows() != self.cols() ==> r == Err::<Matrix, Errors>(
                Errors::IncorrectOrdersForOperation,
            ),
    {
        let d = match self.to_determinant() {
            Ok(d) => d,
            Err(e) => {
                return Err(e);
            },
        };
        let n = self.order.0;
        let len = self.items.len();
        let ghost gs = self.grid();
        let ghost nn = self.rows();
        let mut adj: Vec<i64> = Vec::new();
        let mut i: u32 = 0;
        while i < n
            invariant
                i <= n,
                n == nn,
                nn == self.rows(),
                self.wf(),
                self.rows() == self.cols(),
                gs == self.grid(),
                nn * nn <= usize::MAX,
                d.wf(),
                d.fits(),
                d.grid() == gs,
                d.size_nat() == nn,
                adj@.len() == i * n,
                forall|k: int| 0 <= k < adj@.len() ==> #[trigger] adj@[k] as int == cof(
                    gs,
                    nn,
                    ((k % (n as int)) + 1) as nat,
                    ((k / (n as int)) + 1) as nat,
                ),
            decreases n - i,
        {
            let mut j: u32 = 0;
            proof {
                assert(i * n + n == (i + 1) * n) by (nonlinear_arith);
                assert((i + 1) * n <= n * n) by (nonlinear_arith)
                    requires
                        i < n,
                ;
            }
            while j < n
                invariant
                    j <= n,
                    i < n,
                    n == nn,
                    nn == self.rows(),
                    self.wf(),
                    self.rows() == self.cols(),
                    gs == self.grid(),
                    nn * nn <= usize::MAX,
                    d.wf(),
                    d.fits(),
                    d.grid() == gs,
                    d.size_nat() == nn,
                    adj@.len() == i * n + j,
                    forall|k: int| 0 <= k < adj@.len() ==> #[trigger] adj@[k] as int == cof(
                        gs,
                        nn,
                        ((k % (n as int)) + 1) as nat,
                        ((k / (n as int)) + 1) as nat,
                    ),
                decreases n - j,
            {
                let v = match d.cofactor(j + 1, i + 1) {
                    Ok(v) => v,
                    Err(_) => {
                        proof {
                            assert(false);
                        }
                        0
                    },
                };
                proof {
                    let k0 = (i * n + j) as int;
                    assert(k0 < n * n) by (nonlinear_arith)
                        requires
                            0 <= i < n,
                            0 <= j < n,
                            k0 == i * n + j,
                    ;
                    vstd::arithmetic::div_mod::lemma_fundamental_div_mod_converse_div(
                        k0,
                        n as int,
                        i as int,
                        j as int,
                    );
                    vstd::arithmetic::div_mod::lemma_fundamental_div_mod_converse_mod(
                        k0,
                        n as int,
                        i as int,
                        j as int,
                    );
                }
                adj.push(v);
                j = j + 1;
            }
            i = i + 1;
        }
        let r = Matrix { items: adj, order: (n, n) };
        proof {
            assert(r.grid().len() == nn * nn);
            assert forall|i2: int, j2: int| r.in_range(i2, j2) implies #[trigger] r.entry(i2, j2)
                == cof(gs, nn, j2 as nat, i2 as nat) by {
                lemma_flat_in_range(nn as int, nn as int, i2, j2);
                let k = (i2 - 1) * (nn as int) + (j2 - 1);
                vstd::arithmetic::div_mod::lemma_fundamental_div_mod_converse_div(
                    k,
                    nn as int,
                    i2 - 1,
                    j2 - 1,
                );
                vstd::arithmetic::div_mod::lemma_fundamental_div_mod_converse_mod(
                    k,
                    nn as int,
                    i2 - 1,
                    j2 - 1,
                );
            }
        }
        Ok(r)
    }
}

/// The inner product of the first `t` entries of row `i` of `a` (an
/// `inner`-column grid) with column `j` of `b` (a `bcols`-column grid);
/// `i` and `j` are 1-based.
pub open spec fn dot_prefix(
    a: Seq<int>,
    b: Seq<int>,
    inner: nat,
    bcols: nat,
    i: int,
    j: int,
    t: nat,
) -> int
    decreases t,
{
    if t == 0 {
        0
    } else {
        dot_prefix(a, b, inner, bcols, i, j, (t - 1) as nat) + a[(i - 1) * inner + (t - 1)] * b[(t
            - 1) * bcols + (j - 1)]
    }
}

impl Matrix {
    /// Elementwise sum. Fails with `IncorrectOrdersForOperation` exactly
    /// when the orders differ.
    pub fn add(&self, rhs: &Matrix) -> (r: Result<Matrix, Errors>)
        requires
            self.wf(),
            rhs.wf(),
            self.rows() == rhs.rows() && self.cols() == rhs.cols() ==> forall|k: int|
                0 <= k < self.grid().len() ==> i64::MIN <= #[trigger] (self.grid()[k]
                    + rhs.grid()[k]) <= i64::MAX,
        ensures
            self.rows() == rhs.rows() && self.cols() == rhs.cols() ==> (r matches Ok(m) && m.wf()
                && m.rows() == self.rows() && m.cols() == self.cols() && forall|k: int|
                0 <= k < m.grid().len() ==> #[trigger] m.grid()[k] == self.grid()[k]
                    + rhs.grid()[k]),
            !(self.rows() == rhs.rows() && self.cols() == rhs.cols()) ==> r == Err::<
                Matrix,
                Errors,
            >(Errors::IncorrectOrdersForOperation),
    {
        if self.order.0 != rhs.order.0 || self.order.1 != rhs.order.1 {
            return Err(Errors::IncorrectOrdersForOperation);
        }
        let len = self.items.len();
        let mut items: Vec<i64> = Vec::new();
        let mut k: usize = 0;
        while k < len
            invariant
                k <= len,
                self.wf(),
                rhs.wf(),
                self.rows() == rhs.rows(),
                self.cols() == rhs.cols(),
                len == self.grid().len(),
                len == rhs.grid().len(),
                forall|k2: int| 0 <= k2 < self.grid().len() ==> i64::MIN <= #[trigger] (
                self.grid()[k2] + rhs.grid()[k2]) <= i64::MAX,
                items@.len() == k,
                forall|k2: int| 0 <= k2 < items@.len() ==> #[trigger] items@[k2] as int
                    == self.grid()[k2] + rhs.grid()[k2],
            decreases len - k,
        {
            let x = self.items[k];
            let y = rhs.items[k];
            proof {
                assert(i64::MIN <= self.grid()[k as int] + rhs.grid()[k as int] <= i64::MAX);
            }
            items.push(x + y);
            k = k + 1;
        }
        Ok(Matrix { items, order: self.order })
    }

    /// Elementwise difference. Fails with `IncorrectOrdersForOperation`
    /// exactly when the orders differ.
    pub fn sub(&self, rhs: &Matrix) -> (r: Result<Matrix, Errors>)
        requires
            self.wf(),
            rhs.wf(),
            self.rows() == rhs.rows() && self.cols() == rhs.cols() ==> forall|k: int|
                0 <= k < self.grid().len() ==> i64::MIN <= #[trigger] (self.grid()[k]
                    - rhs.grid()[k]) <= i64::MAX,
        ensures
            self.rows() == rhs.rows() && self.cols() == rhs.cols() ==> (r matches Ok(m) && m.wf()
                && m.rows() == self.rows() && m.cols() == self.cols() && forall|k: int|
                0 <= k < m.grid().len() ==> #[trigger] m.grid()[k] == self.grid()[k]
                    - rhs.grid()[k]),
            !(self.rows() == rhs.rows() && self.cols() == rhs.cols()) ==> r == Err::<
                Matrix,
                Errors,
            >(Errors::IncorrectOrdersForOperation),
    {
        if self.order.0 != rhs.order.0 || self.order.1 != rhs.order.1 {
            return Err(Errors::IncorrectOrdersForOperation);
        }
        let len = self.items.len();
        let mut items: Vec<i64> = Vec::new();
        let mut k: usize = 0;
        while k < len
            invariant
                k <= len,
                self.wf(),
                rhs.wf(),
                self.rows() == rhs.rows(),
                self.cols() == rhs.cols(),
                len == self.grid().len(),
                len == rhs.grid().len(),
                forall|k2: int| 0 <= k2 < self.grid().len() ==> i64::MIN <= #[trigger] (
                self.grid()[k2] - rhs.grid()[k2]) <= i64::MAX,
                items@.len() == k,
                forall|k2: int| 0 <= k2 < items@.len() ==> #[trigger] items@[k2] as int
                    == self.grid()[k2] - rhs.grid()[k2],
            decreases len - k,
        {
            let x = self.items[k];
            let y = rhs.items[k];
            proof {
                assert(i64::MIN <= self.grid()[k as int] - rhs.grid()[k as int] <= i64::MAX);
            }
            items.push(x - y);
            k = k + 1;
        }
        Ok(Matrix { items, order: self.order })
    }

    /// Elementwise multiplication by a scalar.
    pub fn scale(&self, factor: i64) -> (r: Matrix)
        requires
            self.wf(),
            forall|k: int| 0 <= k < self.grid().len() ==> i64::MIN <= #[trigger] (self.grid()[k]
                * factor) <= i64::MAX,
        ensures
            r.wf(),
            r.rows() == self.rows(),
            r.cols() == self.cols(),
            forall|k: int| 0 <= k < r.grid().len() ==> #[trigger] r.grid()[k] == self.grid()[k]
                * factor,
    {
        let len = self.items.len();
        let mut items: Vec<i64> = Vec::new();
        let mut k: usize = 0;
        while k < len
            invariant
                k <= len,
                self.wf(),
                len == self.grid().len(),
                forall|k2: int| 0 <= k2 < self.grid().len() ==> i64::MIN <= #[trigger] (
                self.grid()[k2] * factor) <= i64::MAX,
                items@.len() == k,
                forall|k2: int| 0 <= k2 < items@.len() ==> #[trigger] items@[k2] as int
                    == self.grid()[k2] * factor,
            decreases len - k,
        {
            let x = self.items[k];
            proof {
                assert(i64::MIN <= self.grid()[k as int] * factor <= i64::MAX);
            }
            items.push(x * factor);
            k = k + 1;
        }
        Matrix { items, order: self.order }
    }

    /// The matrix product `self * rhs`, each entry the inner product of a
    /// row of `self` with a column of `rhs`. Fails with
    /// `IncorrectOrdersForOperation` exactly when `self`'s column count
    /// differs from `rhs`'s row count.
    pub fn mul(&self, rhs: &Matrix) -> (r: Result<Matrix, Errors>)
        requires
            self.wf(),
            rhs.wf(),
            self.cols() == rhs.rows() ==> (self.cols() as int) * (max_abs(self.grid()) * max_abs(
                rhs.grid(),
            )) <= i64::MAX,
            self.cols() == rhs.rows() ==> self.rows() * rhs.cols() <= usize::MAX,
        ensures
            self.cols() == rhs.rows() ==> (r matches Ok(m) && m.wf() && m.rows() == self.rows()
                && m.cols() == rhs.cols() && forall|i: int, j: int|
                m.in_range(i, j) ==> #[trigger] m.entry(i, j) == dot_prefix(
                    self.grid(),
                    rhs.grid(),
                    self.cols(),
                    rhs.cols(),
                    i,
                    j,
                    self.cols(),
                )),
            self.cols() != rhs.rows() ==> r == Err::<Matrix, Errors>(
                Errors::IncorrectOrdersForOperation,
            ),
    {
        if self.order.1 != rhs.order.0 {
            return Err(Errors::IncorrectOrdersForOperation);
        }
        let rows = self.order.0 as usize;
        let inner = self.order.1 as usize;
        let bcols = rhs.order.1 as usize;
        let alen = self.items.len();
        let blen = rhs.items.len();
        let ghost ga = self.grid();
        let ghost gb = rhs.grid();
        let ghost p = max_abs(ga) * max_abs(gb);
        proof {
            lemma_max_abs(ga);
            lemma_max_abs(gb);
            assert(p >= 0) by (nonlinear_arith)
                requires
                    max_abs(ga) >= 0,
                    max_abs(gb) >= 0,
                    p == max_abs(ga) * max_abs(gb),
            ;
        }
        let mut items: Vec<i64> = Vec::new();
        let mut i: usize = 0;
        while i < rows
            invariant
                i <= rows,
                self.wf(),
                rhs.wf(),
                self.cols() == rhs.rows(),
                rows == self.rows(),
                inner == self.cols(),
                bcols == rhs.cols(),
                ga == self.grid(),
                gb == rhs.grid(),
                alen == ga.len(),
                blen == gb.len(),
                p == max_abs(ga) * max_abs(gb),
                p >= 0,
                (inner as int) * p <= i64::MAX,
                rows * bcols <= usize::MAX,
                items@.len() == i * bcols,
                forall|k: int| 0 <= k < items@.len() ==> #[trigger] items@[k] as int == dot_prefix(
                    ga,
                    gb,
                    inner as nat,
                    bcols as nat,
                    (k / (bcols as int)) + 1,
                    (k % (bcols as int)) + 1,
                    inner as nat,
                ),
            decreases rows - i,
        {
            let mut j: usize = 0;
            proof {
                assert(i * bcols + bcols == (i + 1) * bcols) by (nonlinear_arith);
                assert((i + 1) * bcols <= rows * bcols) by (nonlinear_arith)
                    requires
                        i < rows,
                        bcols >= 0,
                ;
            }
            while j < bcols
                invariant
                    j <= bcols,
                    i < rows,
                    self.wf(),
                    rhs.wf(),
                    self.cols() == rhs.rows(),
                    rows == self.rows(),
                    inner == self.cols(),
                    bcols == rhs.cols(),
                    ga == self.grid(),
                    gb == rhs.grid(),
                    alen == ga.len(),
                    blen == gb.len(),
                    p == max_abs(ga) * max_abs(gb),
                    p >= 0,
                    (inner as int) * p <= i64::MAX,
                    rows * bcols <= usize::MAX,
                    items@.len() == i * bcols + j,
                    forall|k: int| 0 <= k < items@.len() ==> #[trigger] items@[k] as int
                        == dot_prefix(
                        ga,
                        gb,
                        inner as nat,
                        bcols as nat,
                        (k / (bcols as int)) + 1,
                        (k % (bcols as int)) + 1,
                        inner as nat,
                    ),
                decreases bcols - j,
            {
                let mut sum: i64 = 0;
                let mut t: usize = 0;
                while t < inner
                    invariant
                        t <= inner,
                        i < rows,
                        j < bcols,
                        self.wf(),
                        rhs.wf(),
                        self.cols() == rhs.rows(),
                        rows == self.rows(),
                        inner == self.cols(),
                        bcols == rhs.cols(),
                        ga == self.grid(),
                        gb == rhs.grid(),
                        alen == ga.len(),
                        blen == gb.len(),
                        p == max_abs(ga) * max_abs(gb),
                        p >= 0,
                        (inner as int) * p <= i64::MAX,
                        sum as int == dot_prefix(
                            ga,
                            gb,
                            inner as nat,
                            bcols as nat,
                            i + 1,
                            j + 1,
                            t as nat,
                        ),
                        -((t as int) * p) <= sum as int <= (t as int) * p,
                    decreases inner - t,
                {
                    proof {
                        assert(i * inner + t < rows * inner && t * bcols + j < inner * bcols)
                            by (nonlinear_arith)
                            requires
                                0 <= i < rows,
                                0 <= t < inner,
                                0 <= j < bcols,
                        ;
                        assert(rows * inner == ga.len() && inner * bcols == gb.len())
                            by (nonlinear_arith)
                            requires
                                ga.len() == rows * inner || ga.len() == self.rows() * self.cols(),
                                self.rows() == rows,
                                self.cols() == inner,
                                gb.len() == rhs.rows() * rhs.cols(),
                                rhs.rows() == inner,
                                rhs.cols() == bcols,
                                ga.len() == self.rows() * self.cols(),
                        ;
                    }
                    let a = self.items[i * inner + t];
                    let b = rhs.items[t * bcols + j];
                    proof {
                        lemma_max_abs(ga);
                        lemma_max_abs(gb);
                        assert(-max_abs(ga) <= ga[(i * inner + t) as int] <= max_abs(ga));
                        assert(-max_abs(gb) <= gb[(t * bcols + j) as int] <= max_abs(gb));
                        lemma_mul_abs_bound(a as int, b as int, max_abs(ga), max_abs(gb));
                        assert(p <= (inner as int) * p && (t as int) * p + p == ((t + 1) as int)
                            * p && ((t + 1) as int) * p <= (inner as int) * p)
                            by (nonlinear_arith)
                            requires
                                p >= 0,
                                0 <= t < inner,
                        ;
                    }
                    let prod = a * b;
                    sum = sum + prod;
                    t = t + 1;
                }
                proof {
                    let k0 = (i * bcols + j) as int;
                    assert(k0 < rows * bcols) by (nonlinear_arith)
                        requires
                            0 <= i < rows,
                            0 <= j < bcols,
                            k0 == i * bcols + j,
                    ;
                    vstd::arithmetic::div_mod::lemma_fundamental_div_mod_converse_div(
                        k0,
                        bcols as int,
                        i as int,
                        j as int,
                    );
                    vstd::arithmetic::div_mod::lemma_fundamental_div_mod_converse_mod(
                        k0,
                        bcols as int,
                        i as int,
                        j as int,
                    );
                }
                items.push(sum);
                j = j + 1;
            }
            i = i + 1;
        }
        let r = Matrix { items, order: (self.order.0, rhs.order.1) };
        proof {
            assert forall|i2: int, j2: int| r.in_range(i2, j2) implies #[trigger] r.entry(i2, j2)
                == dot_prefix(ga, gb, inner as nat, bcols as nat, i2, j2, inner as nat) by {
                lemma_flat_in_range(rows as int, bcols as int, i2, j2);
                let k = (i2 - 1) * (bcols as int) + (j2 - 1);
                vstd::arithmetic::div_mod::lemma_fundamental_div_mod_converse_div(
                    k,
                    bcols as int,
                    i2 - 1,
                    j2 - 1,
                );
                vstd::arithmetic::div_mod::lemma_fundamental_div_mod_converse_mod(
                    k,
                    bcols as int,
                    i2 - 1,
                    j2 - 1,
                );
            }
        }
        Ok(r)
    }
}

} // verus!
