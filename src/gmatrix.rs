//! A dense matrix of `R` rows and `C` columns, stored row by row.
use vstd::prelude::*;

use crate::traits::{Oneable, Zeroable};

verus! {

/// Facts about row-major positions: the position of `(row, col)` lies inside a
/// matrix of `rows * cols` entries, and dividing it by `cols` gives the row and
/// column back.
pub proof fn lemma_position(row: int, col: int, rows: int, cols: int)
    requires
        0 <= row < rows,
        0 <= col < cols,
    ensures
        0 <= row * cols + col < rows * cols,
        (row * cols + col) / cols == row,
        (row * cols + col) % cols == col,
{
    assert(0 <= row * cols + col < rows * cols) by (nonlinear_arith)
        requires
            0 <= row < rows,
            0 <= col < cols,
    ;
    vstd::arithmetic::div_mod::lemma_fundamental_div_mod_converse(row * cols + col, cols, row, col);
}

/// The number of entries of `s` that are not zero.
pub open spec fn nonzero_count<T: Zeroable>(s: Seq<T>) -> nat
    decreases s.len(),
{
    if s.len() == 0 {
        0
    } else {
        nonzero_count(s.drop_last()) + if s.last().spec_is_zero() {
            0nat
        } else {
            1nat
        }
    }
}

/// A generic 2d matrix with `R` rows and `C` columns.
#[derive(Debug, Clone)]
pub struct GMatrix<const R: usize, const C: usize, T> {
    values: Vec<T>,
}

impl<const R: usize, const C: usize, T> GMatrix<R, C, T> {
    /// The entries, row by row.
    pub closed spec fn view(&self) -> Seq<T> {
        self.values@
    }

    /// The matrix holds exactly `R * C` entries, a count that fits in `usize`.
    pub open spec fn well_formed(&self) -> bool {
        self@.len() == R * C && R * C <= usize::MAX
    }

    /// The entry in row `row` and column `col`.
    pub open spec fn entry(&self, row: int, col: int) -> T {
        self@[row * C + col]
    }
}

impl<const R: usize, const C: usize, T: Copy> GMatrix<R, C, T> {
    /// Whether the matrix has as many rows as columns.
    pub fn is_square() -> (r: bool)
        ensures
            r == (R == C),
    {
        R == C
    }

    /// The entry in row `row` and column `col`.
    pub fn get(&self, row: usize, col: usize) -> (r: T)
        requires
            self.well_formed(),
            row < R,
            col < C,
        ensures
            r == self.entry(row as int, col as int),
    {
        proof {
            lemma_position(row as int, col as int, R as int, C as int);
        }
        self.values[row * C + col]
    }

    /// Replaces the entry in row `row` and column `col`.
    pub fn set(&mut self, row: usize, col: usize, value: T)
        requires
            old(self).well_formed(),
            row < R,
            col < C,
        ensures
            final(self).well_formed(),
            final(self)@ == old(self)@.update(row * C + col, value),
    {
        proof {
            lemma_position(row as int, col as int, R as int, C as int);
        }
        self.values.set(row * C + col, value);
    }

    /// Creates a matrix from `R` rows of `C` entries each.
    pub fn from_nested_vec(values: Vec<Vec<T>>) -> (r: Self)
        requires
            values.len() == R,
            forall|i: int| 0 <= i < R ==> (#[trigger] values[i]).len() == C,
            R * C <= usize::MAX,
        ensures
            r.well_formed(),
            forall|i: int, j: int| 0 <= i < R && 0 <= j < C ==> #[trigger] r.entry(i, j) == values[i][j],
    {
        let mut flat: Vec<T> = Vec::new();
        let mut i: usize = 0;
        while i < R
            invariant
                i <= R,
                values.len() == R,
                forall|k: int| 0 <= k < R ==> (#[trigger] values[k]).len() == C,
                R * C <= usize::MAX,
                flat.len() == i * C,
                forall|a: int, b: int| 0 <= a < i && 0 <= b < C ==> #[trigger] flat@[a * C + b] == values[a][b],
            decreases R - i,
        {
            let row = &values[i];
            let mut j: usize = 0;
            while j < C
                invariant
                    i < R,
                    j <= C,
                    row@ == values[i as int]@,
                    row.len() == C,
                    flat.len() == i * C + j,
                    forall|a: int, b: int| 0 <= a < i && 0 <= b < C ==> #[trigger] flat@[a * C + b] == values[a][b],
                    forall|b: int| 0 <= b < j ==> #[trigger] flat@[i * C + b] == values[i as int][b],
                decreases C - j,
            {
                proof {
                    assert(i * C + j < R * C) by (nonlinear_arith)
                        requires
                            i < R,
                            j < C,
                    ;
                }
                flat.push(row[j]);
                proof {
                    assert forall|a: int, b: int| 0 <= a < i && 0 <= b < C implies #[trigger] flat@[a * C + b] == values[a][b] by {
                        assert(a * C + b < i * C) by (nonlinear_arith)
                            requires
                                a < i,
                                b < C,
                        ;
                    }
                }
                j = j + 1;
            }
            proof {
                assert((i + 1) * C == i * C + C) by (nonlinear_arith);
            }
            i = i + 1;
        }
        GMatrix { values: flat }
    }

    /// Creates a matrix from an array of `R` rows of `C` entries each.
    pub fn from_nested_arr(values: [[T; C]; R]) -> (r: Self)
        requires
            R * C <= usize::MAX,
        ensures
            r.well_formed(),
            forall|i: int, j: int| 0 <= i < R && 0 <= j < C ==> #[trigger] r.entry(i, j) == values[i][j],
    {
        let mut flat: Vec<T> = Vec::new();
        let mut i: usize = 0;
        while i < R
            invariant
                i <= R,
                R * C <= usize::MAX,
                flat.len() == i * C,
                forall|a: int, b: int| 0 <= a < i && 0 <= b < C ==> #[trigger] flat@[a * C + b] == values[a][b],
            decreases R - i,
        {
            let mut j: usize = 0;
            while j < C
                invariant
                    i < R,
                    j <= C,
                    flat.len() == i * C + j,
                    forall|a: int, b: int| 0 <= a < i && 0 <= b < C ==> #[trigger] flat@[a * C + b] == values[a][b],
                    forall|b: int| 0 <= b < j ==> #[trigger] flat@[i * C + b] == values[i as int][b],
                decreases C - j,
            {
                proof {
                    assert(i * C + j < R * C) by (nonlinear_arith)
                        requires
                            i < R,
                            j < C,
                    ;
                }
                flat.push(values[i][j]);
                proof {
                    assert forall|a: int, b: int| 0 <= a < i && 0 <= b < C implies #[trigger] flat@[a * C + b] == values[a][b] by {
                        assert(a * C + b < i * C) by (nonlinear_arith)
                            requires
                                a < i,
                                b < C,
                        ;
                    }
                }
                j = j + 1;
            }
            proof {
                assert((i + 1) * C == i * C + C) by (nonlinear_arith);
            }
            i = i + 1;
        }
        GMatrix { values: flat }
    }

    /// The entries on the main diagonal, from the top left.
    pub fn diagonals(&self) -> (r: Vec<T>)
        requires
            self.well_formed(),
        ensures
            r.len() == (if R < C { R } else { C }),
            forall|i: int| 0 <= i < r.len() ==> #[trigger] r[i] == self.entry(i, i),
    {
        let n: usize = if R < C { R } else { C };
        let mut r: Vec<T> = Vec::new();
        let mut i: usize = 0;
        while i < n
            invariant
                self.well_formed(),
                n == (if R < C { R } else { C }),
                i <= n,
                r.len() == i,
                forall|k: int| 0 <= k < i ==> #[trigger] r[k] == self.entry(k, k),
            decreases n - i,
        {
            r.push(self.get(i, i));
            i = i + 1;
        }
        r
    }

    /// The entries, row by row.
    pub fn iter(&self) -> (r: Vec<T>)
        requires
            self.well_formed(),
        ensures
            r@ == self@,
    {
        let mut r: Vec<T> = Vec::new();
        let mut k: usize = 0;
        while k < self.values.len()
            invariant
                self@ == self.values@,
                k <= self@.len(),
                r@ == self@.take(k as int),
            decreases self@.len() - k,
        {
            r.push(self.values[k]);
            k = k + 1;
            proof {
                assert(r@ =~= self@.take(k as int));
            }
        }
        proof {
            assert(self@.take(k as int) =~= self@);
        }
        r
    }

    /// The entries, row by row, each with its row and column.
    pub fn iter_indexed(&self) -> (r: Vec<((usize, usize), T)>)
        requires
            self.well_formed(),
        ensures
            r.len() == R * C,
            forall|row: int, col: int| 0 <= row < R && 0 <= col < C ==>
                #[trigger] r[row * C + col] == ((row as usize, col as usize), self.entry(row, col)),
    {
        let mut r: Vec<((usize, usize), T)> = Vec::new();
        let mut k: usize = 0;
        while k < self.values.len()
            invariant
                self.well_formed(),
                self@ == self.values@,
                k <= self@.len(),
                r.len() == k,
                forall|m: int| 0 <= m < k ==> #[trigger] r[m] == (((m / C as int) as usize, (m % C as int) as usize), self@[m]),
            decreases self@.len() - k,
        {
            r.push(((k / C, k % C), self.values[k]));
            k = k + 1;
        }
        proof {
            assert forall|row: int, col: int| 0 <= row < R && 0 <= col < C implies
                #[trigger] r[row * C + col] == ((row as usize, col as usize), self.entry(row, col)) by {
                lemma_position(row, col, R as int, C as int);
            }
        }
        r
    }

    /// Swaps rows and columns: row `i` of the result is column `i` of `self`.
    pub fn transpose(&self) -> (r: GMatrix<C, R, T>)
        requires
            self.well_formed(),
        ensures
            r.well_formed(),
            forall|row: int, col: int| 0 <= row < C && 0 <= col < R ==>
                #[trigger] r.entry(row, col) == self.entry(col, row),
    {
        let mut out: Vec<T> = Vec::new();
        let mut row: usize = 0;
        while row < C
            invariant
                self.well_formed(),
                row <= C,
                out.len() == row * R,
                forall|a: int, b: int| 0 <= a < row && 0 <= b < R ==>
                    #[trigger] out@[a * R + b] == self.entry(b, a),
            decreases C - row,
        {
            let mut col: usize = 0;
            while col < R
                invariant
                    self.well_formed(),
                    row < C,
                    col <= R,
                    out.len() == row * R + col,
                    forall|a: int, b: int| 0 <= a < row && 0 <= b < R ==>
                        #[trigger] out@[a * R + b] == self.entry(b, a),
                    forall|b: int| 0 <= b < col ==> #[trigger] out@[row * R + b] == self.entry(b, row as int),
                decreases R - col,
            {
                out.push(self.get(col, row));
                proof {
                    assert forall|a: int, b: int| 0 <= a < row && 0 <= b < R implies
                        #[trigger] out@[a * R + b] == self.entry(b, a) by {
                        assert(a * R + b < row * R) by (nonlinear_arith)
                            requires
                                a < row,
                                b < R,
                        ;
                    }
                }
                col = col + 1;
            }
            proof {
                assert((row + 1) * R == row * R + R) by (nonlinear_arith);
            }
            row = row + 1;
        }
        proof {
            assert(C * R == R * C) by (nonlinear_arith);
        }
        GMatrix { values: out }
    }
}

impl<const R: usize, const C: usize, T: Copy + Zeroable> GMatrix<R, C, T> {
    /// Creates a matrix filled with zeros.
    pub fn zeros() -> (r: Self)
        requires
            R * C <= usize::MAX,
        ensures
            r.well_formed(),
            forall|k: int| 0 <= k < R * C ==> #[trigger] r@[k] == T::spec_zero(),
    {
        let n: usize = R * C;
        let mut values: Vec<T> = Vec::new();
        while values.len() < n
            invariant
                values.len() <= n,
                forall|k: int| 0 <= k < values.len() ==> #[trigger] values@[k] == T::spec_zero(),
            decreases n - values.len(),
        {
            values.push(T::zero());
        }
        GMatrix { values }
    }

    /// Counts the entries that are not zero.
    pub fn count_nonzero(&self) -> (r: usize)
        requires
            self.well_formed(),
        ensures
            r == nonzero_count(self@),
    {
        let mut count: usize = 0;
        let mut k: usize = 0;
        while k < self.values.len()
            invariant
                k <= self@.len(),
                self@ == self.values@,
                count == nonzero_count(self@.take(k as int)),
                count <= k,
            decreases self@.len() - k,
        {
            proof {
                assert(self@.take(k + 1).drop_last() =~= self@.take(k as int));
            }
            if !self.values[k].is_zero() {
                count = count + 1;
            }
            k = k + 1;
        }
        proof {
            assert(self@.take(k as int) =~= self@);
        }
        count
    }

    /// may hold anything.
    pub fn is_upper_triangular(&self) -> (r: bool)
        requires
            self.well_formed(),
        ensures
            r == forall|row: int, col: int|
                0 <= col < row < R && col < C ==> (#[trigger] self.entry(row, col)).spec_is_zero(),
    {
        let mut row: usize = 1;
        while row < R
            invariant
                self.well_formed(),
                1 <= row,
                forall|a: int, b: int|
                    0 <= b < a < row && a < R && b < C ==> (#[trigger] self.entry(a, b)).spec_is_zero(),
            decreases R - row,
        {
            let mut col: usize = 0;
            while col < row && col < C
                invariant
                    self.well_formed(),
                    1 <= row < R,
                    col <= row,
                    forall|a: int, b: int|
                        0 <= b < a < row && a < R && b < C ==> (#[trigger] self.entry(a, b)).spec_is_zero(),
                    forall|b: int| 0 <= b < col && b < C ==> (#[trigger] self.entry(row as int, b)).spec_is_zero(),
                decreases row - col,
            {
                if !self.get(row, col).is_zero() {
                    return false;
                }
                col = col + 1;
            }
            row = row + 1;
        }
        true
    }

    /// may hold anything.
    pub fn is_lower_triangular(&self) -> (r: bool)
        requires
            self.well_formed(),
        ensures
            r == forall|row: int, col: int|
                0 <= row < col < C && row < R ==> (#[trigger] self.entry(row, col)).spec_is_zero(),
    {
        let mut row: usize = 0;
        while row < R && row < C
            invariant
                self.well_formed(),
                forall|a: int, b: int|
                    0 <= a < b < C && a < row && a < R ==> (#[trigger] self.entry(a, b)).spec_is_zero(),
            decreases R - row,
        {
            let mut col: usize = row + 1;
            while col < C
                invariant
                    self.well_formed(),
                    row < R,
                    row < C,
                    row < col,
                    forall|a: int, b: int|
                        0 <= a < b < C && a < row && a < R ==> (#[trigger] self.entry(a, b)).spec_is_zero(),
                    forall|b: int| row < b < col && b < C ==> (#[trigger] self.entry(row as int, b)).spec_is_zero(),
                decreases C - col,
            {
                if !self.get(row, col).is_zero() {
                    return false;
                }
                col = col + 1;
            }
            row = row + 1;
        }
        true
    }

    /// Whether every entry off the main diagonal is zero.
    pub fn is_diagonal(&self) -> (r: bool)
        requires
            self.well_formed(),
        ensures
            r == forall|row: int, col: int|
                0 <= row < R && 0 <= col < C && row != col ==> (#[trigger] self.entry(row, col)).spec_is_zero(),
    {
        let mut row: usize = 0;
        while row < R
            invariant
                self.well_formed(),
                row <= R,
                forall|a: int, b: int|
                    0 <= a < row && 0 <= b < C && a != b ==> (#[trigger] self.entry(a, b)).spec_is_zero(),
            decreases R - row,
        {
            let mut col: usize = 0;
            while col < C
                invariant
                    self.well_formed(),
                    row < R,
                    col <= C,
                    forall|a: int, b: int|
                        0 <= a < row && 0 <= b < C && a != b ==> (#[trigger] self.entry(a, b)).spec_is_zero(),
                    forall|b: int| 0 <= b < col && b != row ==> (#[trigger] self.entry(row as int, b)).spec_is_zero(),
                decreases C - col,
            {
                if col != row && !self.get(row, col).is_zero() {
                    return false;
                }
                col = col + 1;
            }
            row = row + 1;
        }
        true
    }
}

impl<const R: usize, const C: usize, T: Copy + Oneable> GMatrix<R, C, T> {
    /// Creates a matrix filled with ones.
    pub fn ones() -> (r: Self)
        requires
            R * C <= usize::MAX,
        ensures
            r.well_formed(),
            forall|k: int| 0 <= k < R * C ==> #[trigger] r@[k] == T::spec_one(),
    {
        let n: usize = R * C;
        let mut values: Vec<T> = Vec::new();
        while values.len() < n
            invariant
                values.len() <= n,
                forall|k: int| 0 <= k < values.len() ==> #[trigger] values@[k] == T::spec_one(),
            decreases n - values.len(),
        {
            values.push(T::one());
        }
        GMatrix { values }
    }
}

} // verus!
