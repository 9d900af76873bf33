use vstd::prelude::*;

verus! {

/// `b` is the transpose of `a`: its rows are the columns of `a`.
pub open spec fn transposed<T>(a: Seq<Seq<T>>, rows: nat, cols: nat, b: Seq<Seq<T>>) -> bool {
    &&& b.len() == cols
    &&& forall|j: int| 0 <= j < cols ==> #[trigger] b[j].len() == rows
    &&& forall|i: int, j: int| 0 <= i < rows && 0 <= j < cols ==> #[trigger] b[j][i] == a[i][j]
}

/// Transposing twice gives the matrix back.
pub proof fn lemma_transpose_involution<T>(a: Seq<Seq<T>>, rows: nat, cols: nat, b: Seq<Seq<T>>, c: Seq<Seq<T>>)
    requires
        a.len() == rows,
        forall|i: int| 0 <= i < rows ==> #[trigger] a[i].len() == cols,
        transposed(a, rows, cols, b),
        transposed(b, cols, rows, c),
    ensures
        c == a,
{
    assert forall|i: int| 0 <= i < rows implies #[trigger] c[i] =~= a[i] by {
        assert forall|j: int| 0 <= j < cols implies c[i][j] == a[i][j] by {
            assert(c[i][j] == b[j][i]);
        }
    }
    assert(c =~= a);
}

/// A dense matrix stored row by row.
#[derive(Clone, Debug)]
pub struct DenseMatrix<T> {
    pub rows: usize,
    pub cols: usize,
    pub data: Vec<Vec<T>>,
}

impl<T: Copy> DenseMatrix<T> {
    /// The entries as a sequence of rows.
    pub open spec fn entries(&self) -> Seq<Seq<T>> {
        self.data@.map_values(|row: Vec<T>| row@)
    }

    /// `rows` rows of `cols` entries each.
    pub open spec fn wf(&self) -> bool {
        &&& self.data@.len() == self.rows
        &&& forall|i: int| 0 <= i < self.rows ==> #[trigger] self.entries()[i].len() == self.cols
    }

    /// A `rows x cols` matrix with every entry equal to `zero`.
    pub fn zeros(rows: usize, cols: usize, zero: T) -> (m: Self)
        ensures
            m.wf(),
            m.rows == rows,
            m.cols == cols,
            forall|i: int, j: int| 0 <= i < rows && 0 <= j < cols ==> #[trigger] m.entries()[i][j] == zero,
    {
        let mut data: Vec<Vec<T>> = Vec::new();
        for i in 0..rows
            invariant
                data@.len() == i,
                forall|k: int| 0 <= k < i ==> #[trigger] data@[k]@ == Seq::new(cols as nat, |c: int| zero),
        {
            let mut row: Vec<T> = Vec::new();
            for j in 0..cols
                invariant
                    row@ == Seq::new(j as nat, |c: int| zero),
            {
                row.push(zero);
                assert(row@ =~= Seq::new((j + 1) as nat, |c: int| zero));
            }
            data.push(row);
        }
        let m = DenseMatrix { rows, cols, data };
        assert forall|i: int| 0 <= i < rows implies #[trigger] m.entries()[i] == Seq::new(
            cols as nat,
            |c: int| zero,
        ) by {}
        m
    }

    /// The `n x n` matrix with `one` on the diagonal and `zero` elsewhere.
    pub fn identity(n: usize, zero: T, one: T) -> (m: Self)
        ensures
            m.wf(),
            m.rows == n,
            m.cols == n,
            forall|i: int, j: int|
                0 <= i < n && 0 <= j < n ==> #[trigger] m.entries()[i][j] == if i == j {
                    one
                } else {
                    zero
                },
    {
        let mut m = Self::zeros(n, n, zero);
        for i in 0..n
            invariant
                m.wf(),
                m.rows == n,
                m.cols == n,
                forall|a: int, b: int|
                    0 <= a < n && 0 <= b < n ==> #[trigger] m.entries()[a][b] == if a == b && a < i {
                        one
                    } else {
                        zero
                    },
        {
            m.set(i, i, one);
        }
        m
    }

    /// Wraps the given rows; the column count is the length of the first row.
    pub fn from_vec(data: Vec<Vec<T>>) -> (m: Self)
        ensures
            m.rows == data@.len(),
            m.cols == if data@.len() > 0 { data@[0]@.len() } else { 0 },
            m.data@ == data@,
    {
        let rows = data.len();
        let cols = if rows > 0 { data[0].len() } else { 0 };
        DenseMatrix { rows, cols, data }
    }

    /// The entry in row `i`, column `j`.
    pub fn get(&self, i: usize, j: usize) -> (v: T)
        requires
            i < self.data@.len(),
            j < self.entries()[i as int].len(),
        ensures
            v == self.entries()[i as int][j as int],
    {
        self.data[i][j]
    }

    /// Overwrites the entry in row `i`, column `j`.
    pub fn set(&mut self, i: usize, j: usize, v: T)
        requires
            i < old(self).data@.len(),
            j < old(self).entries()[i as int].len(),
        ensures
            final(self).rows == old(self).rows,
            final(self).cols == old(self).cols,
            final(self).data@.len() == old(self).data@.len(),
            final(self).entries() == old(self).entries().update(
                i as int,
                old(self).entries()[i as int].update(j as int, v),
            ),
    {
        self.data[i].set(j, v);
        proof {
            assert(self.entries() =~= old(self).entries().update(
                i as int,
                old(self).entries()[i as int].update(j as int, v),
            ));
        }
    }

    /// The transpose: entry `(j, i)` of the result is entry `(i, j)` of `self`.
    pub fn transpose(&self) -> (t: Self)
        requires
            self.wf(),
        ensures
            t.wf(),
            t.rows == self.cols,
            t.cols == self.rows,
            forall|i: int, j: int|
                0 <= i < self.rows && 0 <= j < self.cols ==> #[trigger] t.entries()[j][i]
                    == self.entries()[i][j],
            transposed(self.entries(), self.rows as nat, self.cols as nat, t.entries()),
    {
        let mut data: Vec<Vec<T>> = Vec::new();
        for j in 0..self.cols
            invariant
                self.wf(),
                data@.len() == j,
                forall|b: int|
                    0 <= b < j ==> #[trigger] data@[b]@ == Seq::new(
                        self.rows as nat,
                        |a: int| self.entries()[a][b],
                    ),
        {
            let mut row: Vec<T> = Vec::new();
            for i in 0..self.rows
                invariant
                    self.wf(),
                    j < self.cols,
                    row@ == Seq::new(i as nat, |a: int| self.entries()[a][j as int]),
            {
                assert(self.entries()[i as int].len() == self.cols);
                row.push(self.data[i][j]);
                assert(row@ =~= Seq::new((i + 1) as nat, |a: int| self.entries()[a][j as int]));
            }
            data.push(row);
        }
        let t = DenseMatrix { rows: self.cols, cols: self.rows, data };
        assert forall|b: int| 0 <= b < self.cols implies #[trigger] t.entries()[b] == Seq::new(
            self.rows as nat,
            |a: int| self.entries()[a][b],
        ) by {}
        t
    }
}

} // verus!
