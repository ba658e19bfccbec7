//! Where the cells of matrices and planes go.
use crate::dct_math::PlaneMath;
use vstd::prelude::*;

verus! {

/// The basis matrix has a row for each basis function, with its values along the
/// row: cell `k * n + i` is function `k` at position `i`.
pub proof fn law_basis_has_a_row_for_each_function<M: PlaneMath>(
    m: &M,
    n: usize,
    b: Vec<M::Sample>,
    k: int,
    i: int,
)
    requires
        call_ensures(crate::dct_math::dct_basis::<M>, (m, n), b),
        0 <= k < n,
        0 <= i < n,
    ensures
        b@.len() == n * n,
        call_ensures(M::basis_entry, (m, k as usize, i as usize, n), b@[k * n + i]),
{
    assert(crate::dct_math::basis_cell(m, n as int, b@, k, i));
}

/// Transposing a square puts what stood in row `col` and column `row` into row
/// `row` and column `col`.
pub proof fn law_square_is_transposed<T: Copy>(
    a: &[T],
    n: usize,
    t: Vec<T>,
    row: int,
    col: int,
)
    requires
        call_ensures(crate::dct_math::transpose_square::<T>, (a, n), t),
        0 <= row < n,
        0 <= col < n,
    ensures
        t@.len() == n * n,
        t@[row * n + col] == a@[col * n + row],
{
    assert(t@ == crate::dct_math::transposed(a@, n as int));
    crate::dct_math::law_transpose_swaps_cells(a@, n as int, row, col);
    assert(0 <= n * n) by (nonlinear_arith);
}

/// Transposing `h` rows of `w` elements makes `w` rows of `h`: element `y` of row
/// `x` is what was element `x` of row `y`.
pub proof fn law_rows_become_columns<T: Copy>(
    a: &[T],
    w: usize,
    h: usize,
    t: Vec<T>,
    x: int,
    y: int,
)
    requires
        call_ensures(crate::dct_math::transpose_rows::<T>, (a, w, h), t),
        0 <= x < w,
        0 <= y < h,
    ensures
        t@.len() == w * h,
        t@[x * h + y] == a@[y * w + x],
{
    assert(t@ == crate::dct_math::turned_over(a@, w as int, h as int));
    crate::arith::lemma_cell_bound(x, y, w as int, h as int);
    crate::arith::lemma_div_mod_of(x * h + y, h as int, x, y);
    assert(0 <= w * h && 0 <= x * h) by (nonlinear_arith)
        requires
            0 <= x,
    ;
}

/// Rows of `w` elements are joined in order: element `x` of row `y` stands at
/// `y * w + x`.
pub proof fn law_rows_are_joined_in_order<T: Copy>(
    rows: &Vec<Vec<T>>,
    w: usize,
    all: Vec<T>,
    x: int,
    y: int,
)
    requires
        call_ensures(crate::parallel::joined_rows::<T>, (rows, w), all),
        0 <= x < w,
        0 <= y < rows@.len(),
    ensures
        all@.len() == w * rows@.len(),
        all@[y * w + x] == rows@[y]@[x],
{
}

} // verus!
