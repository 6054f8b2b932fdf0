use vstd::prelude::*;

verus! {

/// Entry `(i, j)` of a row-major sequence whose rows are `width` long.
pub open spec fn flat_at<T>(s: Seq<T>, width: nat, i: int, j: int) -> T {
    s[i * width + j]
}

/// `t` holds, in row-major order with `rows` columns, the transpose of the
/// `rows` x `cols` row-major matrix `d`.
pub open spec fn is_transpose_of<T>(t: Seq<T>, d: Seq<T>, rows: nat, cols: nat) -> bool {
    &&& t.len() == rows * cols
    &&& forall|i: int, j: int|
        0 <= i < rows && 0 <= j < cols ==> #[trigger] flat_at(t, rows, j, i) == flat_at(
            d,
            cols,
            i,
            j,
        )
}

/// A row-major `a` x `b` index lies inside the flat storage.
pub proof fn lemma_index_in_bounds(i: int, j: int, height: nat, width: nat)
    requires
        0 <= i < height,
        0 <= j < width,
    ensures
        0 <= i * width + j < height * width,
        i * width + j < (i + 1) * width,
        (i + 1) * width <= height * width,
{
    assert(0 <= i * width) by (nonlinear_arith)
        requires
            0 <= i,
    ;
    assert((i + 1) * width == i * width + width) by (nonlinear_arith);
    assert((i + 1) * width <= height * width) by (nonlinear_arith)
        requires
            i + 1 <= height,
    ;
}

/// A dense matrix stored row by row in `data`.
pub struct Matrix<T> {
    pub rows: usize,
    pub cols: usize,
    pub data: Vec<T>,
}

impl<T> Matrix<T> {
    /// The storage holds exactly `rows * cols` entries.
    pub open spec fn wf(&self) -> bool {
        self.data@.len() == self.rows * self.cols
    }

    /// Builds a `rows` x `cols` matrix from its entries in row-major order.
    pub fn from_flat(rows: usize, cols: usize, data: Vec<T>) -> (m: Matrix<T>)
        requires
            rows * cols == data@.len(),
        ensures
            m.rows == rows,
            m.cols == cols,
            m.data@ == data@,
            m.wf(),
    {
        Matrix { rows, cols, data }
    }
}

impl<T: Copy> Matrix<T> {
    /// The transpose: a `cols` x `rows` matrix with entry `(j, i)` equal to
    /// entry `(i, j)` of `self`. Entries of `data` past `rows * cols` are not
    /// read.
    pub fn transpose(&self) -> (t: Matrix<T>)
        requires
            self.data@.len() >= self.rows * self.cols,
        ensures
            t.rows == self.cols,
            t.cols == self.rows,
            t.wf(),
            is_transpose_of(t.data@, self.data@, self.rows as nat, self.cols as nat),
    {
        let rows = self.rows;
        let cols = self.cols;
        let len = self.data.len();
        let mut data: Vec<T> = Vec::new();
        let mut j: usize = 0;
        while j < cols
            invariant
                j <= cols,
                rows == self.rows,
                cols == self.cols,
                self.data@.len() >= rows * cols,
                len == self.data@.len(),
                data@.len() == j * rows,
                forall|ii: int, jj: int|
                    0 <= ii < rows && 0 <= jj < j ==> #[trigger] flat_at(data@, rows as nat, jj, ii)
                        == flat_at(self.data@, cols as nat, ii, jj),
            decreases cols - j,
        {
            let mut i: usize = 0;
            proof {
                assert((j + 1) * rows == j * rows + rows) by (nonlinear_arith);
                assert((j + 1) * rows <= cols * rows) by (nonlinear_arith)
                    requires
                        j + 1 <= cols,
                ;
            }
            while i < rows
                invariant
                    i <= rows,
                    j < cols,
                    rows == self.rows,
                    cols == self.cols,
                    self.data@.len() >= rows * cols,
                    len == self.data@.len(),
                    data@.len() == j * rows + i,
                    (j + 1) * rows == j * rows + rows,
                    forall|ii: int, jj: int|
                        0 <= ii < rows && 0 <= jj < j ==> #[trigger] flat_at(
                            data@,
                            rows as nat,
                            jj,
                            ii,
                        ) == flat_at(self.data@, cols as nat, ii, jj),
                    forall|ii: int|
                        0 <= ii < i ==> #[trigger] flat_at(data@, rows as nat, j as int, ii)
                            == flat_at(self.data@, cols as nat, ii, j as int),
                decreases rows - i,
            {
                proof {
                    lemma_index_in_bounds(i as int, j as int, rows as nat, cols as nat);
                }
                let v = self.data[i * cols + j];
                let ghost before = data@;
                data.push(v);
                proof {
                    assert forall|ii: int, jj: int|
                        0 <= ii < rows && 0 <= jj < j implies #[trigger] flat_at(
                            data@,
                            rows as nat,
                            jj,
                            ii,
                        ) == flat_at(self.data@, cols as nat, ii, jj) by {
                        lemma_index_in_bounds(jj, ii, j as nat, rows as nat);
                        assert(flat_at(before, rows as nat, jj, ii) == flat_at(
                            self.data@,
                            cols as nat,
                            ii,
                            jj,
                        ));
                    }
                    assert forall|ii: int|
                        0 <= ii < i + 1 implies #[trigger] flat_at(
                            data@,
                            rows as nat,
                            j as int,
                            ii,
                        ) == flat_at(self.data@, cols as nat, ii, j as int) by {
                        if ii < i {
                            assert(flat_at(before, rows as nat, j as int, ii) == flat_at(
                                self.data@,
                                cols as nat,
                                ii,
                                j as int,
                            ));
                        }
                    }
                }
                i = i + 1;
            }
            j = j + 1;
        }
        proof {
            assert(cols * rows == rows * cols) by (nonlinear_arith);
        }
        Matrix { rows: cols, cols: rows, data }
    }
}

/// Transposing twice gives back the entries of the matrix.
pub proof fn lemma_transpose_involution<T>(d: Seq<T>, t: Seq<T>, u: Seq<T>, rows: nat, cols: nat)
    requires
        d.len() == rows * cols,
        is_transpose_of(t, d, rows, cols),
        is_transpose_of(u, t, cols, rows),
    ensures
        u == d,
{
    assert(cols * rows == rows * cols) by (nonlinear_arith);
    assert forall|k: int| 0 <= k < d.len() implies u[k] == d[k] by {
        let i = k / (cols as int);
        let j = k % (cols as int);
        assert(cols > 0) by (nonlinear_arith)
            requires
                0 <= k < rows * cols,
        ;
        assert(k == i * cols + j && 0 <= j < cols) by (nonlinear_arith)
            requires
                cols > 0,
                i == k / (cols as int),
                j == k % (cols as int),
        ;
        assert(0 <= i < rows) by (nonlinear_arith)
            requires
                cols > 0,
                0 <= k < rows * cols,
                k == i * cols + j,
                0 <= j < cols,
        ;
        assert(flat_at(u, cols, i, j) == flat_at(t, rows, j, i));
        assert(flat_at(t, rows, j, i) == flat_at(d, cols, i, j));
    }
    assert(u =~= d);
}

} // verus!
