//! Vectors and matrices that are given by a formula for their entries.
use vstd::prelude::*;

verus! {

/// The vector whose entry at `i` is an answer of `f` to `i`.
pub fn vector_of<T, F: Fn(usize) -> T>(n: usize, f: F) -> (r: Vec<T>)
    requires
        forall|i: usize| i < n ==> #[trigger] call_requires(f, (i,)),
    ensures
        r@.len() == n,
        forall|i: int| 0 <= i < n ==> call_ensures(f, (i as usize,), #[trigger] r@[i]),
{
    let mut r: Vec<T> = Vec::new();
    for i in 0..n
        invariant
            r@.len() == i,
            forall|i: usize| i < n ==> #[trigger] call_requires(f, (i,)),
            forall|k: int| 0 <= k < i ==> call_ensures(f, (k as usize,), #[trigger] r@[k]),
    {
        r.push(f(i));
    }
    r
}

/// A rectangular table.
pub struct Matrix<T> {
    lines: Vec<Vec<T>>,
    width: usize,
}

impl<T> Matrix<T> {
    /// Every row is as long as the matrix is wide.
    pub closed spec fn wf(self) -> bool {
        forall|i: int| 0 <= i < self.lines@.len() ==> (#[trigger] self.lines@[i])@.len() == self.width
    }

    /// The number of rows.
    pub closed spec fn height(self) -> nat {
        self.lines@.len()
    }

    /// The number of columns.
    pub closed spec fn breadth(self) -> nat {
        self.width as nat
    }

    /// The entry in row `i` and column `j`.
    pub closed spec fn at(self, i: int, j: int) -> T {
        self.lines@[i]@[j]
    }

    /// The entries as a function of row and column.
    pub open spec fn entry(self) -> spec_fn(int, int) -> T {
        |i: int, j: int| self.at(i, j)
    }

    /// The matrix is `rows` by `cols` and its entries are those of `entry`.
    pub open spec fn holds(self, rows: int, cols: int, entry: spec_fn(int, int) -> T) -> bool {
        &&& self.wf()
        &&& self.height() == rows
        &&& self.breadth() == cols
        &&& forall|i: int, j: int|
            0 <= i < rows && 0 <= j < cols ==> #[trigger] self.at(i, j) == entry(i, j)
    }

    /// The matrix whose entry at `(i, j)` is an answer of `f` to `(i, j)`.
    pub fn build<F: Fn(usize, usize) -> T>(rows: usize, cols: usize, f: F) -> (r: Self)
        requires
            forall|i: usize, j: usize| i < rows && j < cols ==> #[trigger] call_requires(f, (i, j)),
        ensures
            r.wf(),
            r.height() == rows,
            r.breadth() == cols,
            forall|i: int, j: int|
                0 <= i < rows && 0 <= j < cols ==> call_ensures(
                    f,
                    (i as usize, j as usize),
                    #[trigger] r.at(i, j),
                ),
    {
        let mut lines: Vec<Vec<T>> = Vec::new();
        for i in 0..rows
            invariant
                lines@.len() == i,
                forall|i: usize, j: usize|
                    i < rows && j < cols ==> #[trigger] call_requires(f, (i, j)),
                forall|k: int| 0 <= k < i ==> (#[trigger] lines@[k])@.len() == cols,
                forall|k: int, j: int|
                    0 <= k < i && 0 <= j < cols ==> call_ensures(
                        f,
                        (k as usize, j as usize),
                        #[trigger] lines@[k]@[j],
                    ),
        {
            let mut line: Vec<T> = Vec::new();
            for j in 0..cols
                invariant
                    i < rows,
                    line@.len() == j,
                    forall|i: usize, j: usize|
                        i < rows && j < cols ==> #[trigger] call_requires(f, (i, j)),
                    forall|l: int|
                        0 <= l < j ==> call_ensures(f, (i, l as usize), #[trigger] line@[l]),
            {
                line.push(f(i, j));
            }
            lines.push(line);
        }
        Matrix { lines, width: cols }
    }

    /// The number of rows.
    pub fn rows(&self) -> (r: usize)
        ensures
            r == self.height(),
    {
        self.lines.len()
    }

    /// The number of columns.
    pub fn cols(&self) -> (r: usize)
        ensures
            r == self.breadth(),
    {
        self.width
    }

    /// The entry in row `i` and column `j`.
    pub fn get(&self, i: usize, j: usize) -> (r: T) where T: Copy
        requires
            self.wf(),
            i < self.height(),
            j < self.breadth(),
        ensures
            r == self.at(i as int, j as int),
    {
        self.lines[i][j]
    }
}

/// A cell stands before the end of a table that is read row by row.
pub proof fn cell_is_inside(i: int, j: int, rows: int, cols: int)
    requires
        0 <= i < rows,
        0 <= j < cols,
    ensures
        i <= i * cols <= i * cols + j < rows * cols,
{
    assert(i <= i * cols <= i * cols + j < rows * cols) by (nonlinear_arith)
        requires
            0 <= i < rows,
            0 <= j < cols,
    ;
}

/// A place in a table that is read row by row has a row and a column.
pub proof fn place_has_cell(k: int, cols: int, rows: int)
    requires
        0 <= cols,
        0 <= k < cols * rows,
    ensures
        cols > 0,
        0 <= k / cols < rows,
        0 <= k % cols < cols,
{
    assert(cols > 0 && 0 <= k / cols < rows && 0 <= k % cols < cols) by (nonlinear_arith)
        requires
            0 <= cols,
            0 <= k < cols * rows,
    ;
}

} // verus!
