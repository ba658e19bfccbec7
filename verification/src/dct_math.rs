//! The DCT-II basis and its transpose, as row-major matrices.
use vstd::prelude::*;

verus! {

/// The arithmetic of the plane transform. Nothing is assumed of it here: the
/// transform says which operations it applies to what, and in which order.
pub trait PlaneMath {
    /// One sample of a plane, a basis entry or a coefficient.
    type Sample: Copy + Send + Sync;

    /// The normalized diagonal frequency cutoff, as the user gives it.
    type Cutoff: Copy;

    /// The cutoff as coefficients are held against it.
    type Threshold: Copy + Send + Sync;

    /// What a sum starts from, and what a coefficient beyond the cutoff becomes.
    fn zero(&self) -> Self::Sample;

    /// `acc + s * c`.
    fn multiply_add(&self, acc: Self::Sample, s: Self::Sample, c: Self::Sample) -> Self::Sample;

    /// Basis function `k` of length `n` at position `i`.
    fn basis_entry(&self, k: usize, i: usize, n: usize) -> Self::Sample;

    /// The threshold that a cutoff stands for.
    fn threshold(&self, cutoff: Self::Cutoff) -> Self::Threshold;

    /// Whether the rank `x / denom_x + y / denom_y` of a coefficient exceeds the
    /// threshold.
    fn beyond(
        &self,
        threshold: Self::Threshold,
        x: usize,
        denom_x: usize,
        y: usize,
        denom_y: usize,
    ) -> bool;

    /// A sample held to the range of a pixel.
    fn pixel(&self, v: Self::Sample) -> Self::Sample;
}

/// `b` holds basis function `k` at position `i` in cell `k * n + i`.
pub open spec fn is_basis<M: PlaneMath>(m: &M, n: int, b: Seq<M::Sample>) -> bool {
    &&& b.len() == n * n
    &&& forall|k: int, i: int|
        0 <= k < n && 0 <= i < n ==> #[trigger] basis_cell(m, n, b, k, i)
}

/// Cell `k * n + i` of `b` is basis function `k` at position `i`.
pub open spec fn basis_cell<M: PlaneMath>(
    m: &M,
    n: int,
    b: Seq<M::Sample>,
    k: int,
    i: int,
) -> bool {
    call_ensures(M::basis_entry, (m, k as usize, i as usize, n as usize), b[k * n + i])
}

/// Orthonormal `n` by `n` DCT-II basis: cell `k * n + i` is basis function `k`
/// at position `i`. The same matrix serves the forward and the inverse
/// transform.
pub fn dct_basis<M: PlaneMath>(m: &M, n: usize) -> (b: Vec<M::Sample>)
    requires
        n * n <= usize::MAX,
    ensures
        is_basis(m, n as int, b@),
{
    let ghost ni = n as int;
    let mut b: Vec<M::Sample> = Vec::with_capacity(n * n);
    let mut k: usize = 0;
    while k < n
        invariant
            k <= n,
            ni == n,
            b@.len() == k * n,
            forall|kk: int, i: int|
                0 <= kk < k && 0 <= i < n ==> #[trigger] basis_cell(m, ni, b@, kk, i),
        decreases n - k,
    {
        let mut i: usize = 0;
        while i < n
            invariant
                i <= n,
                k < n,
                ni == n,
                b@.len() == k * n + i,
                forall|kk: int, ii: int|
                    0 <= kk < k && 0 <= ii < n ==> #[trigger] basis_cell(m, ni, b@, kk, ii),
                forall|ii: int| 0 <= ii < i ==> #[trigger] basis_cell(m, ni, b@, k as int, ii),
            decreases n - i,
        {
            let ghost was = b@;
            let entry = m.basis_entry(k, i, n);
            b.push(entry);
            proof {
                assert forall|kk: int, ii: int|
                    0 <= kk < k && 0 <= ii < n implies #[trigger] basis_cell(m, ni, b@, kk, ii) by {
                    assert(basis_cell(m, ni, was, kk, ii));
                    crate::arith::lemma_cell_bound(kk, ii, k as int, ni);
                }
                assert forall|ii: int| 0 <= ii < i + 1 implies #[trigger] basis_cell(
                    m,
                    ni,
                    b@,
                    k as int,
                    ii,
                ) by {
                    if ii < i {
                        assert(basis_cell(m, ni, was, k as int, ii));
                        assert(0 <= k * ni) by (nonlinear_arith)
                            requires
                                0 <= ni,
                        ;
                    }
                }
            }
            i = i + 1;
        }
        assert((k + 1) * n == k * n + n) by (nonlinear_arith);
        k = k + 1;
    }
    b
}

/// The transpose of an `n` by `n` row-major matrix.
pub open spec fn transposed<T>(a: Seq<T>, n: int) -> Seq<T> {
    Seq::new((n * n) as nat, |c: int| a[(c % n) * n + c / n])
}

/// Transposes an `n` by `n` matrix stored row by row.
pub fn transpose_square<T: Copy>(a: &[T], n: usize) -> (t: Vec<T>)
    requires
        n * n <= a@.len(),
    ensures
        t@ == transposed(a@, n as int),
{
    let len: usize = a.len();
    let mut t: Vec<T> = Vec::with_capacity(n * n);
    let mut row: usize = 0;
    while row < n
        invariant
            row <= n,
            len == a@.len(),
            n * n <= len,
            t@.len() == row * n,
            forall|c: int| 0 <= c < t@.len() ==> #[trigger] t@[c] == transposed(a@, n as int)[c],
        decreases n - row,
    {
        let mut col: usize = 0;
        while col < n
            invariant
                col <= n,
                row < n,
                len == a@.len(),
                n * n <= len,
                t@.len() == row * n + col,
                forall|c: int|
                    0 <= c < t@.len() ==> #[trigger] t@[c] == transposed(a@, n as int)[c],
            decreases n - col,
        {
            proof {
                crate::arith::lemma_cell_bound(col as int, row as int, n as int, n as int);
                crate::arith::lemma_cell_bound(row as int, col as int, n as int, n as int);
                crate::arith::lemma_div_mod_of(row * n + col, n as int, row as int, col as int);
                assert(0 <= col * n) by (nonlinear_arith);
            }
            t.push(a[col * n + row]);
            col = col + 1;
        }
        assert((row + 1) * n == row * n + n) by (nonlinear_arith);
        row = row + 1;
    }
    assert(t@ =~= transposed(a@, n as int));
    t
}

/// The transpose of `h` rows of `w` elements: `w` rows of `h` elements.
pub open spec fn turned_over<T>(a: Seq<T>, w: int, h: int) -> Seq<T> {
    Seq::new((w * h) as nat, |c: int| a[(c % h) * w + c / h])
}

/// Transposes `h` rows of `w` elements, so that columns become rows.
pub fn transpose_rows<T: Copy>(a: &[T], w: usize, h: usize) -> (t: Vec<T>)
    requires
        w * h <= a@.len(),
    ensures
        t@ == turned_over(a@, w as int, h as int),
{
    let len: usize = a.len();
    let ghost goal = turned_over(a@, w as int, h as int);
    let mut t: Vec<T> = Vec::with_capacity(w * h);
    let mut row: usize = 0;
    while row < w
        invariant
            row <= w,
            len == a@.len(),
            w * h <= len,
            goal == turned_over(a@, w as int, h as int),
            t@.len() == row * h,
            forall|c: int| 0 <= c < t@.len() ==> #[trigger] t@[c] == goal[c],
        decreases w - row,
    {
        let mut col: usize = 0;
        while col < h
            invariant
                col <= h,
                row < w,
                len == a@.len(),
                w * h <= len,
                goal == turned_over(a@, w as int, h as int),
                t@.len() == row * h + col,
                forall|c: int| 0 <= c < t@.len() ==> #[trigger] t@[c] == goal[c],
            decreases h - col,
        {
            proof {
                crate::arith::lemma_cell_bound(col as int, row as int, h as int, w as int);
                crate::arith::lemma_cell_bound(row as int, col as int, w as int, h as int);
                crate::arith::lemma_div_mod_of(row * h + col, h as int, row as int, col as int);
                assert(h * w == w * h) by (nonlinear_arith);
                assert(0 <= col * w) by (nonlinear_arith);
            }
            t.push(a[col * w + row]);
            col = col + 1;
        }
        assert((row + 1) * h == row * h + h) by (nonlinear_arith);
        row = row + 1;
    }
    assert(t@ =~= goal);
    t
}

/// Transposing back gives the rows back.
pub proof fn law_turned_over_twice<T>(a: Seq<T>, w: int, h: int)
    requires
        0 <= w,
        0 <= h,
        a.len() == w * h,
    ensures
        turned_over(turned_over(a, w, h), h, w) == a,
{
    let t = turned_over(a, w, h);
    let back = turned_over(t, h, w);
    assert(w * h == h * w) by (nonlinear_arith);
    assert forall|c: int| 0 <= c < w * h implies back[c] == #[trigger] a[c] by {
        assert(w > 0 && h > 0) by (nonlinear_arith)
            requires
                0 <= c < w * h,
                0 <= w,
                0 <= h,
        ;
        let (row, col) = (c / w, c % w);
        vstd::arithmetic::div_mod::lemma_fundamental_div_mod(c, w);
        crate::arith::lemma_quotient_bound(c, h, w);
        assert(w * row == row * w) by (nonlinear_arith);
        crate::arith::lemma_cell_bound(col, row, w, h);
        crate::arith::lemma_div_mod_of(col * h + row, h, col, row);
    }
    assert(back =~= a);
}

/// Cell `(row, col)` of the transpose is cell `(col, row)` of the matrix.
pub proof fn law_transpose_swaps_cells<T>(a: Seq<T>, n: int, row: int, col: int)
    requires
        0 <= row < n,
        0 <= col < n,
    ensures
        transposed(a, n)[row * n + col] == a[col * n + row],
{
    crate::arith::lemma_cell_bound(row, col, n, n);
    crate::arith::lemma_div_mod_of(row * n + col, n, row, col);
}

/// Transposing twice gives the matrix back.
pub proof fn law_transpose_twice<T>(a: Seq<T>, n: int)
    requires
        0 <= n,
        a.len() == n * n,
    ensures
        transposed(transposed(a, n), n) == a,
{
    let t = transposed(a, n);
    assert forall|c: int| 0 <= c < n * n implies transposed(t, n)[c] == #[trigger] a[c] by {
        assert(n > 0) by (nonlinear_arith)
            requires
                0 <= c < n * n,
                0 <= n,
        ;
        let (row, col) = (c / n, c % n);
        vstd::arithmetic::div_mod::lemma_fundamental_div_mod(c, n);
        crate::arith::lemma_quotient_bound(c, n, n);
        assert(n * row == row * n) by (nonlinear_arith);
        law_transpose_swaps_cells(t, n, row, col);
        law_transpose_swaps_cells(a, n, col, row);
    }
    assert(transposed(t, n) =~= a);
}

} // verus!
