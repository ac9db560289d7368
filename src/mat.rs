use vstd::prelude::*;
use vstd::arithmetic::div_mod::{lemma_fundamental_div_mod, lemma_fundamental_div_mod_converse};
use vstd::slice::slice_subrange;

verus! {

/// What a matrix holds: its column count and its rows, top to bottom.
pub struct MatView<T> {
    pub cols: nat,
    pub rows: Seq<Seq<T>>,
}

impl<T> MatView<T> {
    /// Every row has exactly `cols` entries.
    pub open spec fn wf(self) -> bool {
        forall|r: int| 0 <= r < self.rows.len() ==> (#[trigger] self.rows[r]).len() == self.cols
    }

    /// The number of rows.
    pub open spec fn nrows(self) -> nat {
        self.rows.len()
    }

    /// The entry at row `r`, column `c`.
    pub open spec fn at(self, r: int, c: int) -> T {
        self.rows[r][c]
    }

    /// The transpose: rows become columns, the entry at `(r, c)` moving to `(c, r)`.
    pub open spec fn transposed(self) -> MatView<T> {
        MatView {
            cols: self.rows.len(),
            rows: Seq::new(self.cols, |c: int| Seq::new(self.rows.len(), |r: int| self.rows[r][c])),
        }
    }

    /// The first `at` columns.
    pub open spec fn left_cols(self, at: nat) -> MatView<T> {
        MatView { cols: at, rows: Seq::new(self.rows.len(), |r: int| self.rows[r].take(at as int)) }
    }

    /// The columns from `at` on.
    pub open spec fn right_cols(self, at: nat) -> MatView<T> {
        MatView {
            cols: (self.cols - at) as nat,
            rows: Seq::new(self.rows.len(), |r: int| self.rows[r].skip(at as int)),
        }
    }

    /// Side by side: each row of `self` followed by the row of `other` at the same height.
    pub open spec fn beside(self, other: MatView<T>) -> MatView<T> {
        MatView {
            cols: self.cols + other.cols,
            rows: Seq::new(self.rows.len(), |r: int| self.rows[r] + other.rows[r]),
        }
    }
}

/// Column `c` of `m`, top to bottom.
pub open spec fn column<T>(m: MatView<T>, c: int) -> Seq<T> {
    Seq::new(m.rows.len(), |i: int| m.rows[i][c])
}

/// `f` accepts any three arguments.
pub open spec fn accepts_all3<T, F: Fn(T, T, T) -> T>(f: F) -> bool {
    forall|a: T, b: T, c: T| #[trigger] f.requires((a, b, c))
}

/// `accs` is a run of `f` over the pairs of `xs` and `ys` in order: each
/// value comes from the one before it and the next pair.
pub open spec fn is_run<T, F: Fn(T, T, T) -> T>(f: F, accs: Seq<T>, xs: Seq<T>, ys: Seq<T>) -> bool {
    &&& accs.len() == xs.len() + 1
    &&& forall|k: int| 0 <= k < xs.len() ==> f.ensures((accs[k], xs[k], ys[k]), #[trigger] accs[k + 1])
}

/// `result` is what `acc` becomes when carried through `f` over the pairs of
/// `xs` and `ys` in order: with `f(acc, x, y) = acc + x * y` it is `acc` plus
/// the dot product of `xs` and `ys`.
pub open spec fn folds_to<T, F: Fn(T, T, T) -> T>(f: F, acc: T, xs: Seq<T>, ys: Seq<T>, result: T) -> bool {
    exists|accs: Seq<T>|
        #[trigger] is_run(f, accs, xs, ys) && accs[0] == acc && accs[xs.len() as int] == result
}

/// A dense matrix stored row after row in one buffer.
#[derive(Debug)]
pub struct Mat<T> {
    data: Vec<T>,
    rows: usize,
    cols: usize,
}

/// Where cell `(r, c)` sits in a buffer whose rows have `cols` cells.
pub open spec fn cell(r: int, c: int, cols: int) -> int {
    r * cols + c
}

proof fn lemma_row_end(r: int, rows: int, cols: int)
    requires
        0 <= r < rows,
        0 <= cols,
    ensures
        0 <= r * cols,
        r * cols + cols <= rows * cols,
{
    assert(0 <= r * cols) by (nonlinear_arith)
        requires 0 <= r, 0 <= cols;
    assert(r * cols + cols <= rows * cols) by (nonlinear_arith)
        requires r < rows, 0 <= cols;
}

proof fn lemma_transposed_cell(i: int, rows: int, cols: int)
    requires
        0 <= i < rows * cols,
        0 < rows,
    ensures
        0 <= i % rows < rows,
        0 <= i / rows < cols,
        0 <= cell(i % rows, i / rows, cols) < rows * cols,
{
    lemma_fundamental_div_mod(i, rows);
    let q = i / rows;
    let m = i % rows;
    assert(0 <= q) by (nonlinear_arith)
        requires i == rows * q + m, 0 <= i, 0 <= m < rows;
    assert(q < cols) by (nonlinear_arith)
        requires i == rows * q + m, i < rows * cols, 0 <= m, 0 < rows;
    lemma_row_end(m, rows, cols);
}

/// Two matrices of one shape with the same entry at every place are equal.
pub proof fn lemma_same_cells<T>(a: MatView<T>, b: MatView<T>)
    requires
        a.wf(),
        b.wf(),
        a.cols == b.cols,
        a.nrows() == b.nrows(),
        forall|r: int, c: int| 0 <= r < a.nrows() && 0 <= c < a.cols ==> #[trigger] a.at(r, c) == b.at(r, c),
    ensures
        a == b,
{
    assert forall|r: int| 0 <= r < a.nrows() implies #[trigger] a.rows[r] == b.rows[r] by {
        assert forall|c: int| 0 <= c < a.cols implies #[trigger] a.rows[r][c] == b.rows[r][c] by {
            assert(a.at(r, c) == b.at(r, c));
        }
        assert(a.rows[r] =~= b.rows[r]);
    }
    assert(a.rows =~= b.rows);
}

/// Transposing twice gives back the matrix.
pub proof fn lemma_transpose_twice<T>(m: MatView<T>)
    requires
        m.wf(),
    ensures
        m.transposed().transposed() == m,
{
    let t = m.transposed().transposed();
    assert forall|r: int| 0 <= r < m.rows.len() implies #[trigger] t.rows[r] == m.rows[r] by {
        assert(t.rows[r] =~= m.rows[r]);
    }
    assert(t.rows =~= m.rows);
}

/// Splitting the columns at `at` and setting the two parts side by side gives
/// back the matrix.
pub proof fn lemma_split_then_join<T>(m: MatView<T>, at: nat)
    requires
        m.wf(),
        0 < at < m.cols,
    ensures
        m.left_cols(at).beside(m.right_cols(at)) == m,
{
    let j = m.left_cols(at).beside(m.right_cols(at));
    assert forall|r: int| 0 <= r < m.rows.len() implies #[trigger] j.rows[r] == m.rows[r] by {
        assert(j.rows[r] =~= m.rows[r].take(at as int) + m.rows[r].skip(at as int));
        assert(m.rows[r].take(at as int) + m.rows[r].skip(at as int) =~= m.rows[r]);
    }
    assert(j.rows =~= m.rows);
}

impl<T> View for Mat<T> {
    type V = MatView<T>;

    closed spec fn view(&self) -> MatView<T> {
        MatView {
            cols: self.cols as nat,
            rows: Seq::new(
                self.rows as nat,
                |r: int| self.data@.subrange(r * self.cols, r * self.cols + self.cols),
            ),
        }
    }
}

impl<T: Copy> Mat<T> {
    /// The buffer holds exactly one entry per cell.
    pub closed spec fn inv(&self) -> bool {
        &&& self.data@.len() == self.rows * self.cols
        &&& self.rows * self.cols <= usize::MAX
    }

    proof fn lemma_view(&self)
        requires
            self.inv(),
        ensures
            self@.wf(),
            self@.nrows() == self.rows,
            self@.cols == self.cols,
            forall|r: int, c: int|
                0 <= r < self.rows && 0 <= c < self.cols ==> 0 <= #[trigger] cell(r, c, self.cols as int)
                    < self.data@.len(),
            forall|r: int, c: int|
                0 <= r < self.rows && 0 <= c < self.cols ==> #[trigger] self@.at(r, c) == self.data@[cell(
                    r,
                    c,
                    self.cols as int,
                )],
    {
        assert forall|r: int, c: int| 0 <= r < self.rows && 0 <= c < self.cols implies 0
            <= #[trigger] cell(r, c, self.cols as int) < self.data@.len() && self@.at(r, c)
            == self.data@[cell(r, c, self.cols as int)] by {
            lemma_row_end(r, self.rows as int, self.cols as int);
        }
        assert forall|r: int| 0 <= r < self@.rows.len() implies (#[trigger] self@.rows[r]).len()
            == self@.cols by {
            lemma_row_end(r, self.rows as int, self.cols as int);
        }
    }

    /// A sound matrix has rows of equal length.
    pub proof fn lemma_wf(&self)
        requires
            self.inv(),
        ensures
            self@.wf(),
            self@.nrows() <= usize::MAX,
            self@.cols <= usize::MAX,
            self@.nrows() * self@.cols <= usize::MAX,
    {
        self.lemma_view();
    }

    /// A `rows` x `cols` matrix over `values`, read row after row.
    pub fn new(values: &[T], rows: usize, cols: usize) -> (m: Mat<T>)
        requires
            values@.len() == rows * cols,
        ensures
            m.inv(),
            m@.nrows() == rows,
            m@.cols == cols,
            forall|r: int, c: int|
                0 <= r < rows && 0 <= c < cols ==> #[trigger] m@.at(r, c) == values@[cell(
                    r,
                    c,
                    cols as int,
                )],
    {
        let m = Mat { data: vstd::slice::slice_to_vec(values), rows, cols };
        proof {
            assert(values.len() == values@.len());
            m.lemma_view();
        }
        m
    }

    /// A `rows` x `cols` matrix with `value` in every cell.
    pub fn zeros(rows: usize, cols: usize, value: T) -> (m: Mat<T>)
        requires
            rows * cols <= usize::MAX,
        ensures
            m.inv(),
            m@.nrows() == rows,
            m@.cols == cols,
            forall|r: int, c: int| 0 <= r < rows && 0 <= c < cols ==> #[trigger] m@.at(r, c) == value,
    {
        let n: usize = rows * cols;
        let mut data: Vec<T> = Vec::with_capacity(n);
        let mut i: usize = 0;
        while i < n
            invariant
                i <= n,
                n == rows * cols,
                data@.len() == i,
                forall|k: int| 0 <= k < i ==> #[trigger] data@[k] == value,
            decreases n - i,
        {
            data.push(value);
            i = i + 1;
        }
        let m = Mat { data, rows, cols };
        proof {
            m.lemma_view();
        }
        m
    }

    /// A single row of `cols` cells, each holding `value`.
    pub fn zeros_row(cols: usize, value: T) -> (m: Mat<T>)
        ensures
            m.inv(),
            m@.nrows() == 1,
            m@.cols == cols,
            forall|c: int| 0 <= c < cols ==> #[trigger] m@.at(0, c) == value,
    {
        Mat::zeros(1, cols, value)
    }

    /// A matrix of the same shape as `other`, each cell holding `value`.
    pub fn clone_zero(other: &Mat<T>, value: T) -> (m: Mat<T>)
        requires
            other.inv(),
        ensures
            m.inv(),
            m@.nrows() == other@.nrows(),
            m@.cols == other@.cols,
            forall|r: int, c: int|
                0 <= r < m@.nrows() && 0 <= c < m@.cols ==> #[trigger] m@.at(r, c) == value,
    {
        proof {
            other.lemma_view();
        }
        Mat::zeros(other.rows, other.cols, value)
    }

    /// A matrix with no rows yet, whose rows will have `cols` cells.
    pub fn empty(cols: usize) -> (m: Mat<T>)
        ensures
            m.inv(),
            m@.nrows() == 0,
            m@.cols == cols,
    {
        let m = Mat { data: Vec::new(), rows: 0, cols };
        proof {
            m.lemma_view();
        }
        m
    }

    /// A one-row matrix holding `values`.
    pub fn row_from_slice(values: &[T]) -> (m: Mat<T>)
        ensures
            m.inv(),
            m@.nrows() == 1,
            m@.cols == values@.len(),
            m@.rows[0] == values@,
    {
        let m = Mat { data: vstd::slice::slice_to_vec(values), rows: 1, cols: values.len() };
        proof {
            assert(values.len() == values@.len());
            m.lemma_view();
            assert(m@.rows[0] =~= values@);
        }
        m
    }

    /// The number of rows.
    pub fn rows(&self) -> (n: usize)
        requires
            self.inv(),
        ensures
            n == self@.nrows(),
    {
        proof {
            self.lemma_view();
        }
        self.rows
    }

    /// The number of columns.
    pub fn cols(&self) -> (n: usize)
        requires
            self.inv(),
        ensures
            n == self@.cols,
    {
        proof {
            self.lemma_view();
        }
        self.cols
    }

    /// The cells, row after row.
    pub fn as_slice(&self) -> (cells: &[T])
        requires
            self.inv(),
        ensures
            cells@.len() == self@.nrows() * self@.cols,
            forall|r: int, c: int|
                0 <= r < self@.nrows() && 0 <= c < self@.cols ==> #[trigger] self@.at(r, c) == cells@[cell(
                    r,
                    c,
                    self@.cols as int,
                )],
    {
        proof {
            self.lemma_view();
        }
        self.data.as_slice()
    }

    /// The number of cells.
    pub fn len(&self) -> (n: usize)
        requires
            self.inv(),
        ensures
            n == self@.nrows() * self@.cols,
    {
        proof {
            self.lemma_view();
        }
        self.data.len()
    }
    /// Appends `row` below the last row.
    pub fn add_row(&mut self, row: &[T])
        requires
            old(self).inv(),
            row@.len() == old(self)@.cols,
            old(self)@.nrows() < usize::MAX,
        ensures
            final(self).inv(),
            final(self)@.cols == old(self)@.cols,
            final(self)@.rows == old(self)@.rows.push(row@),
    {
        proof {
            self.lemma_view();
        }
        let ghost before = self.data@;
        let mut i: usize = 0;
        while i < row.len()
            invariant
                i <= row@.len(),
                self.rows == old(self).rows,
                self.cols == old(self).cols,
                self.data@.len() == before.len() + i,
                self.data@.subrange(0, before.len() as int) == before,
                forall|k: int| 0 <= k < i ==> #[trigger] self.data@[before.len() + k] == row@[k],
            decreases row@.len() - i,
        {
            self.data.push(row[i]);
            proof {
                assert(self.data@.subrange(0, before.len() as int) =~= before);
            }
            i = i + 1;
        }
        self.rows = self.rows + 1;
        proof {
            let old_view = old(self)@;
            let new_view = self@;
            assert((self.rows - 1) * self.cols + self.cols == self.rows * self.cols) by (nonlinear_arith);
            assert(self.data.len() == self.data@.len());
            assert(self.inv());
            assert forall|r: int| 0 <= r < new_view.rows.len() implies #[trigger] new_view.rows[r]
                == old_view.rows.push(row@)[r] by {
                lemma_row_end(r, self.rows as int, self.cols as int);
                if r < old_view.rows.len() {
                    lemma_row_end(r, self.rows as int - 1, self.cols as int);
                    assert(new_view.rows[r] =~= old_view.rows[r]);
                } else {
                    assert(r * self.cols == before.len());
                    assert forall|k: int| 0 <= k < row@.len() implies #[trigger] new_view.rows[r][k]
                        == row@[k] by {
                        assert(new_view.rows[r][k] == self.data@[before.len() + k]);
                    }
                    assert(new_view.rows[r] =~= row@);
                }
            }
            assert(new_view.rows =~= old_view.rows.push(row@));
        }
    }

    /// The cells of row `r`, left to right.
    pub fn get_row(&self, r: usize) -> (out: &[T])
        requires
            self.inv(),
            r < self@.nrows(),
        ensures
            out@ == self@.rows[r as int],
    {
        proof {
            self.lemma_view();
            lemma_row_end(r as int, self.rows as int, self.cols as int);
        }
        let start: usize = r * self.cols;
        slice_subrange(self.data.as_slice(), start, start + self.cols)
    }

    /// The cell at row `r`, column `c`.
    pub fn get(&self, r: usize, c: usize) -> (v: T)
        requires
            self.inv(),
            r < self@.nrows(),
            c < self@.cols,
        ensures
            v == self@.at(r as int, c as int),
    {
        proof {
            self.lemma_view();
        }
        proof {
            assert(cell(r as int, c as int, self.cols as int) < self.data@.len());
        }
        self.data[r * self.cols + c]
    }

    /// Puts `v` in the cell at row `r`, column `c`.
    pub fn set(&mut self, r: usize, c: usize, v: T)
        requires
            old(self).inv(),
            r < old(self)@.nrows(),
            c < old(self)@.cols,
        ensures
            final(self).inv(),
            final(self)@.cols == old(self)@.cols,
            final(self)@.rows == old(self)@.rows.update(
                r as int,
                old(self)@.rows[r as int].update(c as int, v),
            ),
    {
        proof {
            self.lemma_view();
        }
        let ghost before = *self;
        proof {
            assert(cell(r as int, c as int, self.cols as int) < self.data@.len());
        }
        let k: usize = r * self.cols + c;
        self.data.set(k, v);
        proof {
            self.lemma_view();
            let expect = before@.rows.update(r as int, before@.rows[r as int].update(c as int, v));
            assert forall|i: int| 0 <= i < self@.rows.len() implies #[trigger] self@.rows[i]
                == expect[i] by {
                assert forall|j: int| 0 <= j < self.cols implies #[trigger] self@.rows[i][j]
                    == expect[i][j] by {
                    before.lemma_view();
                    if i != r {
                        assert(cell(i, j, self.cols as int) != cell(r as int, c as int, self.cols as int))
                            by (nonlinear_arith)
                            requires i != r, 0 <= j < self.cols, 0 <= c < self.cols;
                    }
                    assert(self@.at(i, j) == self.data@[cell(i, j, self.cols as int)]);
                    assert(before@.at(i, j) == before.data@[cell(i, j, self.cols as int)]);
                }
                assert(self@.rows[i] =~= expect[i]);
            }
            assert(self@.rows =~= expect);
        }
    }
    /// Turns the matrix on its diagonal: the cell at `(r, c)` moves to `(c, r)`.
    pub fn transpose(&mut self)
        requires
            old(self).inv(),
        ensures
            final(self).inv(),
            final(self)@ == old(self)@.transposed(),
    {
        proof {
            self.lemma_view();
        }
        let rows: usize = self.rows;
        let cols: usize = self.cols;
        let size: usize = self.data.len();
        let mut out: Vec<T> = Vec::with_capacity(size);
        let mut i: usize = 0;
        while i < size
            invariant
                i <= size,
                size == rows * cols,
                self.data@.len() == size,
                self.rows == rows,
                self.cols == cols,
                out@.len() == i,
                forall|k: int|
                    0 <= k < i ==> #[trigger] out@[k] == self.data@[cell(k % rows as int, k / rows as int, cols as int)],
            decreases size - i,
        {
            proof {
                assert(0 < rows) by (nonlinear_arith)
                    requires i < size, size == rows * cols, rows >= 0;
                lemma_transposed_cell(i as int, rows as int, cols as int);
            }
            out.push(self.data[(i % rows) * cols + i / rows]);
            i = i + 1;
        }
        let ghost before = *self;
        self.data = out;
        self.rows = cols;
        self.cols = rows;
        proof {
            assert(rows * cols == cols * rows) by (nonlinear_arith);
            self.lemma_view();
            let expect = before@.transposed();
            assert forall|a: int| 0 <= a < cols implies #[trigger] self@.rows[a] == expect.rows[a] by {
                assert forall|b: int| 0 <= b < rows implies #[trigger] self@.rows[a][b]
                    == expect.rows[a][b] by {
                    let k = cell(a, b, rows as int);
                    assert(self@.at(a, b) == out@[k]);
                    lemma_fundamental_div_mod_converse(k, rows as int, a, b);
                    assert(before@.at(b, a) == before.data@[cell(b, a, cols as int)]);
                }
                assert(self@.rows[a] =~= expect.rows[a]);
            }
            assert(self@.rows =~= expect.rows);
        }
    }

    /// Cuts the matrix into the columns before `at` and those from `at` on.
    pub fn split_v(self, at: usize) -> (parts: (Mat<T>, Mat<T>))
        requires
            self.inv(),
            0 < at < self@.cols,
        ensures
            parts.0.inv(),
            parts.1.inv(),
            parts.0@ == self@.left_cols(at as nat),
            parts.1@ == self@.right_cols(at as nat),
    {
        proof {
            self.lemma_view();
        }
        let mut left: Mat<T> = Mat::empty(at);
        let mut right: Mat<T> = Mat::empty(self.cols - at);
        let mut r: usize = 0;
        while r < self.rows
            invariant
                self.inv(),
                self@.wf(),
                self@.nrows() == self.rows,
                self@.cols == self.cols,
                0 < at < self.cols,
                r <= self.rows,
                left.inv(),
                right.inv(),
                left@.cols == at,
                right@.cols == self.cols - at,
                left@.rows == Seq::new(r as nat, |i: int| self@.rows[i].take(at as int)),
                right@.rows == Seq::new(r as nat, |i: int| self@.rows[i].skip(at as int)),
            decreases self.rows - r,
        {
            let row: &[T] = self.get_row(r);
            left.add_row(slice_subrange(row, 0, at));
            right.add_row(slice_subrange(row, at, self.cols));
            proof {
                assert(left@.rows =~= Seq::new((r + 1) as nat, |i: int| self@.rows[i].take(at as int)));
                assert(right@.rows =~= Seq::new((r + 1) as nat, |i: int| self@.rows[i].skip(at as int)));
            }
            r = r + 1;
        }
        proof {
            assert(left@.rows =~= self@.left_cols(at as nat).rows);
            assert(right@.rows =~= self@.right_cols(at as nat).rows);
        }
        (left, right)
    }

    /// Overwrites every cell with the one at the same place in `other`.
    pub fn copy_from(&mut self, other: &Mat<T>)
        requires
            old(self).inv(),
            other.inv(),
            old(self)@.nrows() == other@.nrows(),
            old(self)@.cols == other@.cols,
        ensures
            final(self).inv(),
            final(self)@ == other@,
    {
        proof {
            self.lemma_view();
            other.lemma_view();
        }
        let n: usize = self.data.len();
        let mut i: usize = 0;
        while i < n
            invariant
                i <= n,
                n == self.data@.len(),
                n == other.data@.len(),
                self.rows == other.rows,
                self.cols == other.cols,
                forall|k: int| 0 <= k < i ==> #[trigger] self.data@[k] == other.data@[k],
            decreases n - i,
        {
            self.data.set(i, other.data[i]);
            i = i + 1;
        }
        proof {
            assert(self.data@ =~= other.data@);
        }
    }
    /// A `rows` x `cols` matrix whose cells are filled, row after row, by
    /// successive calls of `draw`.
    pub fn generate<F: Fn() -> T>(rows: usize, cols: usize, draw: F) -> (m: Mat<T>)
        requires
            rows * cols <= usize::MAX,
            draw.requires(()),
        ensures
            m.inv(),
            m@.nrows() == rows,
            m@.cols == cols,
            forall|r: int, c: int|
                0 <= r < rows && 0 <= c < cols ==> draw.ensures((), #[trigger] m@.at(r, c)),
    {
        let n: usize = rows * cols;
        let mut data: Vec<T> = Vec::with_capacity(n);
        let mut i: usize = 0;
        while i < n
            invariant
                i <= n,
                n == rows * cols,
                data@.len() == i,
                draw.requires(()),
                forall|k: int| 0 <= k < i ==> draw.ensures((), #[trigger] data@[k]),
            decreases n - i,
        {
            data.push(draw());
            i = i + 1;
        }
        let m = Mat { data, rows, cols };
        proof {
            m.lemma_view();
        }
        m
    }

    /// The matrix of `f` applied to each cell.
    pub fn map<F: Fn(T) -> T>(&self, f: F) -> (m: Mat<T>)
        requires
            self.inv(),
            forall|x: T| #[trigger] f.requires((x,)),
        ensures
            m.inv(),
            m@.nrows() == self@.nrows(),
            m@.cols == self@.cols,
            forall|r: int, c: int|
                0 <= r < m@.nrows() && 0 <= c < m@.cols ==> f.ensures(
                    (self@.at(r, c),),
                    #[trigger] m@.at(r, c),
                ),
    {
        let n: usize = self.data.len();
        let mut data: Vec<T> = Vec::with_capacity(n);
        let mut i: usize = 0;
        while i < n
            invariant
                i <= n,
                n == self.data@.len(),
                data@.len() == i,
                forall|x: T| #[trigger] f.requires((x,)),
                forall|k: int| 0 <= k < i ==> f.ensures((self.data@[k],), #[trigger] data@[k]),
            decreases n - i,
        {
            data.push(f(self.data[i]));
            i = i + 1;
        }
        let m = Mat { data, rows: self.rows, cols: self.cols };
        proof {
            m.lemma_view();
            self.lemma_view();
            assert forall|r: int, c: int| 0 <= r < m@.nrows() && 0 <= c < m@.cols implies f.ensures(
                (self@.at(r, c),),
                #[trigger] m@.at(r, c),
            ) by {
                assert(m@.at(r, c) == data@[cell(r, c, self.cols as int)]);
            }
        }
        m
    }

    /// The matrix of `f` applied to the cells of `self` and `other` at each place.
    pub fn zip_with<F: Fn(T, T) -> T>(&self, other: &Mat<T>, f: F) -> (m: Mat<T>)
        requires
            self.inv(),
            other.inv(),
            self@.nrows() == other@.nrows(),
            self@.cols == other@.cols,
            forall|x: T, y: T| #[trigger] f.requires((x, y)),
        ensures
            m.inv(),
            m@.nrows() == self@.nrows(),
            m@.cols == self@.cols,
            forall|r: int, c: int|
                0 <= r < m@.nrows() && 0 <= c < m@.cols ==> f.ensures(
                    (self@.at(r, c), other@.at(r, c)),
                    #[trigger] m@.at(r, c),
                ),
    {
        proof {
            self.lemma_view();
            other.lemma_view();
        }
        let n: usize = self.data.len();
        let mut data: Vec<T> = Vec::with_capacity(n);
        let mut i: usize = 0;
        while i < n
            invariant
                i <= n,
                n == self.data@.len(),
                n == other.data@.len(),
                data@.len() == i,
                forall|x: T, y: T| #[trigger] f.requires((x, y)),
                forall|k: int|
                    0 <= k < i ==> f.ensures((self.data@[k], other.data@[k]), #[trigger] data@[k]),
            decreases n - i,
        {
            data.push(f(self.data[i], other.data[i]));
            i = i + 1;
        }
        let m = Mat { data, rows: self.rows, cols: self.cols };
        proof {
            m.lemma_view();
            assert forall|r: int, c: int| 0 <= r < m@.nrows() && 0 <= c < m@.cols implies f.ensures(
                (self@.at(r, c), other@.at(r, c)),
                #[trigger] m@.at(r, c),
            ) by {
                assert(m@.at(r, c) == data@[cell(r, c, self.cols as int)]);
            }
        }
        m
    }

    /// The matrix of `f` applied to each cell and the cell of `row` in the
    /// same column.
    pub fn zip_each_row<F: Fn(T, T) -> T>(&self, row: &[T], f: F) -> (m: Mat<T>)
        requires
            self.inv(),
            row@.len() == self@.cols,
            forall|x: T, y: T| #[trigger] f.requires((x, y)),
        ensures
            m.inv(),
            m@.nrows() == self@.nrows(),
            m@.cols == self@.cols,
            forall|r: int, c: int|
                0 <= r < m@.nrows() && 0 <= c < m@.cols ==> f.ensures(
                    (self@.at(r, c), row@[c]),
                    #[trigger] m@.at(r, c),
                ),
    {
        proof {
            self.lemma_view();
        }
        let n: usize = self.data.len();
        let cols: usize = self.cols;
        let mut data: Vec<T> = Vec::with_capacity(n);
        let mut i: usize = 0;
        while i < n
            invariant
                i <= n,
                n == self.data@.len(),
                n == self.rows * self.cols,
                cols == self.cols,
                row@.len() == cols,
                data@.len() == i,
                forall|x: T, y: T| #[trigger] f.requires((x, y)),
                forall|k: int|
                    0 <= k < i ==> f.ensures((self.data@[k], row@[k % (cols as int)]), #[trigger] data@[k]),
            decreases n - i,
        {
            proof {
                assert(0 < cols) by (nonlinear_arith)
                    requires i < n, n == self.rows * cols, self.rows >= 0;
            }
            data.push(f(self.data[i], row[i % cols]));
            i = i + 1;
        }
        let m = Mat { data, rows: self.rows, cols: self.cols };
        proof {
            m.lemma_view();
            assert forall|r: int, c: int| 0 <= r < m@.nrows() && 0 <= c < m@.cols implies f.ensures(
                (self@.at(r, c), row@[c]),
                #[trigger] m@.at(r, c),
            ) by {
                let k = cell(r, c, cols as int);
                lemma_fundamental_div_mod_converse(k, cols as int, r, c);
                assert(m@.at(r, c) == data@[k]);
            }
        }
        m
    }

    /// The matrix product `self . rhs`, each cell accumulated from `zero` by
    /// `mul_add(acc, x, y)` over the row of `self` and the column of `rhs`.
    pub fn dot<F: Fn(T, T, T) -> T>(&self, rhs: &Mat<T>, zero: T, mul_add: F) -> (m: Mat<T>)
        requires
            self.inv(),
            rhs.inv(),
            self@.cols == rhs@.nrows(),
            self@.nrows() * rhs@.cols <= usize::MAX,
            accepts_all3(mul_add),
        ensures
            m.inv(),
            m@.nrows() == self@.nrows(),
            m@.cols == rhs@.cols,
            forall|r: int, c: int|
                0 <= r < m@.nrows() && 0 <= c < m@.cols ==> folds_to(
                    mul_add,
                    zero,
                    self@.rows[r],
                    column(rhs@, c),
                    #[trigger] m@.at(r, c),
                ),
    {
        proof {
            self.lemma_view();
            rhs.lemma_view();
        }
        let mut out: Mat<T> = Mat::zeros(self.rows, rhs.cols, zero);
        mat_dot(&mut out, self, rhs, mul_add);
        out
    }
}

/// Adds the product `lhs . rhs` onto `out`: each cell of `out` is carried
/// through `mul_add(acc, x, y)` over the row of `lhs` and the column of `rhs`.
pub fn mat_dot<T: Copy, F: Fn(T, T, T) -> T>(out: &mut Mat<T>, lhs: &Mat<T>, rhs: &Mat<T>, mul_add: F)
    requires
        old(out).inv(),
        lhs.inv(),
        rhs.inv(),
        lhs@.cols == rhs@.nrows(),
        old(out)@.nrows() == lhs@.nrows(),
        old(out)@.cols == rhs@.cols,
        accepts_all3(mul_add),
    ensures
        final(out).inv(),
        final(out)@.nrows() == old(out)@.nrows(),
        final(out)@.cols == old(out)@.cols,
        forall|r: int, c: int|
            0 <= r < final(out)@.nrows() && 0 <= c < final(out)@.cols ==> folds_to(
                mul_add,
                old(out)@.at(r, c),
                lhs@.rows[r],
                column(rhs@, c),
                #[trigger] final(out)@.at(r, c),
            ),
{
    let ghost start = out@;
    proof {
        out.lemma_view();
        lhs.lemma_view();
        rhs.lemma_view();
    }
    let rows: usize = out.rows();
    let cols: usize = out.cols();
    let inner: usize = lhs.cols();
    let mut r: usize = 0;
    while r < rows
        invariant
            out.inv(),
            lhs.inv(),
            rhs.inv(),
            accepts_all3(mul_add),
            start.wf(),
            lhs@.wf(),
            rhs@.wf(),
            rows == start.nrows(),
            cols == start.cols,
            inner == lhs@.cols,
            inner == rhs@.nrows(),
            rows == lhs@.nrows(),
            cols == rhs@.cols,
            r <= rows,
            out@.nrows() == rows,
            out@.cols == cols,
            forall|i: int, j: int|
                0 <= i < rows && 0 <= j < cols ==> if i < r {
                    folds_to(mul_add, start.at(i, j), lhs@.rows[i], column(rhs@, j), #[trigger] out@.at(i, j))
                } else {
                    out@.at(i, j) == start.at(i, j)
                },
        decreases rows - r,
    {
        let mut c: usize = 0;
        while c < cols
            invariant
                out.inv(),
                lhs.inv(),
                rhs.inv(),
                accepts_all3(mul_add),
                start.wf(),
                lhs@.wf(),
                rhs@.wf(),
                rows == start.nrows(),
                cols == start.cols,
                inner == lhs@.cols,
                inner == rhs@.nrows(),
                rows == lhs@.nrows(),
                cols == rhs@.cols,
                r < rows,
                c <= cols,
                out@.nrows() == rows,
                out@.cols == cols,
                forall|i: int, j: int|
                    0 <= i < rows && 0 <= j < cols ==> if i < r || (i == r && j < c) {
                        folds_to(mul_add, start.at(i, j), lhs@.rows[i], column(rhs@, j), #[trigger] out@.at(i, j))
                    } else {
                        out@.at(i, j) == start.at(i, j)
                    },
            decreases cols - c,
        {
            let mut acc: T = out.get(r, c);
            let ghost mut accs: Seq<T> = seq![acc];
            let mut k: usize = 0;
            while k < inner
                invariant
                    lhs.inv(),
                    rhs.inv(),
                    accepts_all3(mul_add),
                    lhs@.wf(),
                    rhs@.wf(),
                    inner == lhs@.cols,
                    inner == rhs@.nrows(),
                    rows == lhs@.nrows(),
                    cols == rhs@.cols,
                    r < rows,
                    c < cols,
                    k <= inner,
                    is_run(mul_add, accs, lhs@.rows[r as int].take(k as int), column(rhs@, c as int).take(k as int)),
                    accs[0] == start.at(r as int, c as int),
                    accs[k as int] == acc,
                decreases inner - k,
            {
                let x: T = lhs.get(r, k);
                let y: T = rhs.get(k, c);
                let next: T = mul_add(acc, x, y);
                proof {
                    let xs = lhs@.rows[r as int].take(k + 1);
                    let ys = column(rhs@, c as int).take(k + 1);
                    let accs2 = accs.push(next);
                    assert forall|j: int| 0 <= j < xs.len() implies mul_add.ensures(
                        (accs2[j], xs[j], ys[j]),
                        #[trigger] accs2[j + 1],
                    ) by {
                        if j < k {
                            assert(accs2[j + 1] == accs[j + 1]);
                            assert(xs[j] == lhs@.rows[r as int].take(k as int)[j]);
                            assert(ys[j] == column(rhs@, c as int).take(k as int)[j]);
                        }
                    }
                    accs = accs2;
                }
                acc = next;
                k = k + 1;
            }
            proof {
                out.lemma_view();
            }
            let ghost before = out@;
            out.set(r, c, acc);
            proof {
                out.lemma_view();
                assert forall|i: int, j: int| 0 <= i < rows && 0 <= j < cols implies if i < r || (i == r
                    && j < c + 1) {
                    folds_to(mul_add, start.at(i, j), lhs@.rows[i], column(rhs@, j), #[trigger] out@.at(i, j))
                } else {
                    out@.at(i, j) == start.at(i, j)
                } by {
                    if i == r && j == c {
                        assert(out@.at(i, j) == acc);
                        assert(lhs@.rows[i].take(inner as int) =~= lhs@.rows[i]);
                        assert(column(rhs@, j).take(inner as int) =~= column(rhs@, j));
                        assert(is_run(mul_add, accs, lhs@.rows[i], column(rhs@, j)));
                    } else {
                        assert(out@.at(i, j) == before.at(i, j));
                    }
                }
            }
            c = c + 1;
        }
        r = r + 1;
    }
}

impl<T: Copy> Clone for Mat<T> {
    fn clone(&self) -> (m: Self)
        ensures
            m@ == self@,
            m.inv() == self.inv(),
    {
        let mut data: Vec<T> = Vec::with_capacity(self.data.len());
        let mut i: usize = 0;
        while i < self.data.len()
            invariant
                i <= self.data@.len(),
                data@ == self.data@.subrange(0, i as int),
            decreases self.data@.len() - i,
        {
            data.push(self.data[i]);
            proof {
                assert(data@ =~= self.data@.subrange(0, i + 1));
            }
            i = i + 1;
        }
        proof {
            assert(data@ =~= self.data@);
        }
        Mat { data, rows: self.rows, cols: self.cols }
    }
}

} // verus!
