//! Fixed-size 3x3 matrices stored as nested row arrays.
use vstd::prelude::*;

verus! {

/// Swaps the rows and the columns of a 3x3 matrix.
pub fn transpose<T: Copy>(matrix: &[[T; 3]; 3]) -> (r: [[T; 3]; 3])
    ensures
        forall|i: int, j: int| 0 <= i < 3 && 0 <= j < 3 ==> #[trigger] r[i][j] == matrix[j][i],
{
    [
        [matrix[0][0], matrix[1][0], matrix[2][0]],
        [matrix[0][1], matrix[1][1], matrix[2][1]],
        [matrix[0][2], matrix[1][2], matrix[2][2]],
    ]
}

} // verus!
