//! What the plane transform computes where the arithmetic is exact: `val(s)` is
//! the number a sample stands for.
use crate::dct_math::PlaneMath;
use vstd::prelude::*;

verus! {

/// `v` held between 0 and 255.
pub open spec fn held(v: real) -> real {
    if v < 0 as real {
        0 as real
    } else if v > 255 as real {
        255 as real
    } else {
        v
    }
}

/// The arithmetic `m` is exact.
pub open spec fn exact<M: PlaneMath>(m: &M, val: spec_fn(M::Sample) -> real) -> bool {
    &&& forall|z: M::Sample|
        #![trigger call_ensures(M::zero, (m,), z)]
        call_ensures(M::zero, (m,), z) ==> val(z) == 0 as real
    &&& forall|acc: M::Sample, s: M::Sample, c: M::Sample, out: M::Sample|
        #![trigger call_ensures(M::multiply_add, (m, acc, s, c), out)]
        call_ensures(M::multiply_add, (m, acc, s, c), out) ==> val(out) == val(acc) + val(s) * val(
            c,
        )
    &&& forall|v: M::Sample, out: M::Sample|
        #![trigger call_ensures(M::pixel, (m, v), out)]
        call_ensures(M::pixel, (m, v), out) ==> val(out) == held(val(v))
}

/// The number in cell `(k, i)` of an `n` by `n` matrix.
pub open spec fn entry<S>(val: spec_fn(S) -> real, b: Seq<S>, n: int, k: int, i: int) -> real {
    val(b[k * n + i])
}

/// The product of columns `i` and `j` of an `n` by `n` matrix.
pub open spec fn column_product<S>(
    val: spec_fn(S) -> real,
    b: Seq<S>,
    n: nat,
    i: int,
    j: int,
) -> real {
    crate::sums::total(
        |k: int| entry(val, b, n as int, k, i) * entry(val, b, n as int, k, j),
        n,
    )
}

/// The columns of a basis matrix are of length 1 and at right angles.
pub open spec fn orthonormal<S>(val: spec_fn(S) -> real, b: Seq<S>, n: nat) -> bool {
    forall|i: int, j: int|
        0 <= i < n && 0 <= j < n ==> #[trigger] column_product(val, b, n, i, j) == (if i == j {
            1 as real
        } else {
            0 as real
        })
}

/// A sum of products is the sum of the products of the numbers.
proof fn lemma_dots<M: PlaneMath>(
    m: &M,
    val: spec_fn(M::Sample) -> real,
    a: Seq<M::Sample>,
    b: Seq<M::Sample>,
    out: M::Sample,
)
    requires
        exact(m, val),
        a.len() == b.len(),
        crate::cpu::dots(m, a, b, out),
    ensures
        val(out) == crate::sums::total(|i: int| val(a[i]) * val(b[i]), a.len()),
    decreases a.len(),
{
    if a.len() > 0 {
        let (a0, b0) = (a.drop_last(), b.drop_last());
        let prev = choose|prev: M::Sample|
            {
                &&& crate::cpu::dots(m, a0, b0, prev)
                &&& #[trigger] call_ensures(M::multiply_add, (m, prev, a.last(), b.last()), out)
            };
        lemma_dots(m, val, a0, b0, prev);
        crate::sums::lemma_total_equal(
            |i: int| val(a[i]) * val(b[i]),
            |i: int| val(a0[i]) * val(b0[i]),
            a0.len(),
        );
    }
}

/// Cell `(x, y)` of a row pass, as numbers.
pub(crate) proof fn lemma_row_cell<M: PlaneMath>(
    m: &M,
    val: spec_fn(M::Sample) -> real,
    src: Seq<M::Sample>,
    w: nat,
    basis: Seq<M::Sample>,
    clamp: bool,
    x: int,
    y: int,
    out: M::Sample,
)
    requires
        exact(m, val),
        crate::cpu::row_cell(m, src, w as int, basis, clamp, x, y, out),
    ensures
        val(out) == ({
            let sum = crate::sums::total(
                |i: int| entry(val, src, w as int, y, i) * entry(val, basis, w as int, x, i),
                w,
            );
            if clamp {
                held(sum)
            } else {
                sum
            }
        }),
{
    let wi = w as int;
    let (a, b) = (crate::cpu::row_of(src, wi, y), crate::cpu::row_of(basis, wi, x));
    let sum = choose|sum: M::Sample|
        {
            &&& #[trigger] crate::cpu::dots(m, a, b, sum)
            &&& if clamp {
                call_ensures(M::pixel, (m, sum), out)
            } else {
                out == sum
            }
        };
    lemma_dots(m, val, a, b, sum);
    crate::sums::lemma_total_equal(
        |i: int| val(a[i]) * val(b[i]),
        |i: int| entry(val, src, wi, y, i) * entry(val, basis, wi, x, i),
        w,
    );
}

/// Cell `(x, y)` of a column pass, as numbers, where the mask keeps it.
pub(crate) proof fn lemma_column_cell<M: PlaneMath>(
    m: &M,
    val: spec_fn(M::Sample) -> real,
    src: Seq<M::Sample>,
    w: nat,
    h: nat,
    basis: Seq<M::Sample>,
    mask: Option<M::Threshold>,
    x: int,
    y: int,
    out: M::Sample,
)
    requires
        exact(m, val),
        mask matches Some(t) ==> kept(m, t, w as int, h as int, x, y),
        crate::cpu::column_cell(m, src, w as int, h as int, basis, mask, x, y, out),
    ensures
        val(out) == crate::sums::total(
            |i: int| entry(val, src, w as int, i, x) * entry(val, basis, h as int, y, i),
            h,
        ),
{
    let (wi, hi) = (w as int, h as int);
    let (a, b) = (crate::cpu::column_of(src, wi, hi, x), crate::cpu::row_of(basis, hi, y));
    assert(crate::cpu::dots(m, a, b, out));
    lemma_dots(m, val, a, b, out);
    crate::sums::lemma_total_equal(
        |i: int| val(a[i]) * val(b[i]),
        |i: int| entry(val, src, wi, i, x) * entry(val, basis, hi, y, i),
        h,
    );
}

/// The mask keeps the coefficient of cell `(x, y)`.
pub open spec fn kept<M: PlaneMath>(m: &M, t: M::Threshold, w: int, h: int, x: int, y: int) -> bool {
    forall|beyond: bool|
        #[trigger] call_ensures(
            M::beyond,
            (
                m,
                t,
                x as usize,
                crate::cpu::rank_denominator(w) as usize,
                y as usize,
                crate::cpu::rank_denominator(h) as usize,
            ),
            beyond,
        ) ==> !beyond
}

/// The mask drops the coefficient of cell `(x, y)`.
pub open spec fn dropped<M: PlaneMath>(
    m: &M,
    t: M::Threshold,
    w: int,
    h: int,
    x: int,
    y: int,
) -> bool {
    forall|beyond: bool|
        #[trigger] call_ensures(
            M::beyond,
            (
                m,
                t,
                x as usize,
                crate::cpu::rank_denominator(w) as usize,
                y as usize,
                crate::cpu::rank_denominator(h) as usize,
            ),
            beyond,
        ) ==> beyond
}

/// No coefficient ranks above 2: along each axis the index never exceeds what
/// rank 1 is measured in. The first coefficient ranks 0. So a cutoff of 2 keeps
/// everything, and no cutoff drops the average.
pub proof fn law_rank_is_at_most_two(w: int, h: int, x: int, y: int)
    requires
        0 <= x < w,
        0 <= y < h,
    ensures
        crate::cpu::rank_denominator(w) >= 1,
        crate::cpu::rank_denominator(h) >= 1,
        x <= crate::cpu::rank_denominator(w),
        y <= crate::cpu::rank_denominator(h),
        0 <= x * crate::cpu::rank_denominator(h) + y * crate::cpu::rank_denominator(w) <= 2 * (
        crate::cpu::rank_denominator(w) * crate::cpu::rank_denominator(h)),
{
    let (dx, dy) = (crate::cpu::rank_denominator(w), crate::cpu::rank_denominator(h));
    assert(0 <= x * dy + y * dx <= 2 * (dx * dy)) by (nonlinear_arith)
        requires
            0 <= x <= dx,
            0 <= y <= dy,
    ;
}

/// The transposed orthonormal matrix undoes the matrix, along one axis.
proof fn lemma_undo<S>(
    val: spec_fn(S) -> real,
    b: Seq<S>,
    n: nat,
    s: spec_fn(int) -> real,
    x: int,
)
    requires
        orthonormal(val, b, n),
        0 <= x < n,
    ensures
        crate::sums::total(
            |k: int|
                crate::sums::total(|i: int| s(i) * entry(val, b, n as int, k, i), n) * entry(
                    val,
                    b,
                    n as int,
                    k,
                    x,
                ),
            n,
        ) == s(x),
{
    let ni = n as int;
    let e = |k: int, i: int| entry(val, b, ni, k, i);
    let outer = |k: int|
        crate::sums::total(|i: int| s(i) * entry(val, b, ni, k, i), n) * entry(val, b, ni, k, x);
    let cell = |k: int, i: int| s(i) * e(k, i) * e(k, x);
    let by_k = |k: int| crate::sums::total(|i: int| cell(k, i), n);
    assert forall|k: int| 0 <= k < n implies #[trigger] outer(k) == by_k(k) by {
        let inner = |i: int| s(i) * entry(val, b, ni, k, i);
        crate::sums::lemma_total_scale(inner, n, e(k, x));
        crate::sums::lemma_total_equal(|i: int| inner(i) * e(k, x), |i: int| cell(k, i), n);
    }
    crate::sums::lemma_total_equal(outer, by_k, n);
    crate::sums::lemma_total_swap(cell, n, n);
    let by_i = |i: int| crate::sums::total(|k: int| cell(k, i), n);
    assert forall|i: int| 0 <= i < n implies #[trigger] by_i(i) == column_product(val, b, n, i, x)
        * s(i) by {
        let p = |k: int| entry(val, b, ni, k, i) * entry(val, b, ni, k, x);
        crate::sums::lemma_total_scale(p, n, s(i));
        assert forall|k: int| 0 <= k < n implies #[trigger] cell(k, i) == p(k) * s(i) by {
            let (f, g, q) = (s(i), e(k, i), e(k, x));
            assert(f * g * q == g * q * f) by (nonlinear_arith);
        }
        crate::sums::lemma_total_equal(|k: int| cell(k, i), |k: int| p(k) * s(i), n);
    }
    assert forall|i: int| 0 <= i < n && i != x implies #[trigger] by_i(i) == 0 as real by {
        assert(column_product(val, b, n, i, x) == 0 as real);
        let f = s(i);
        assert((0 as real) * f == 0 as real) by (nonlinear_arith);
    }
    crate::sums::lemma_total_single(by_i, n, x);
    assert(column_product(val, b, n, x, x) == 1 as real);
    let f = s(x);
    assert((1 as real) * f == f) by (nonlinear_arith);
}

/// In exact arithmetic, with an orthonormal basis and a cutoff that keeps every
/// coefficient, a plane of pixel values comes back as it was.
pub proof fn law_full_cutoff_is_lossless<M: PlaneMath>(
    m: &M,
    val: spec_fn(M::Sample) -> real,
    pixels: Seq<M::Sample>,
    w: nat,
    h: nat,
    cutoff: M::Cutoff,
    out: Seq<M::Sample>,
    x: int,
    y: int,
)
    requires
        exact(m, val),
        forall|b: Seq<M::Sample>| #[trigger]
            crate::dct_math::is_basis(m, w as int, b) ==> orthonormal(val, b, w),
        forall|b: Seq<M::Sample>| #[trigger]
            crate::dct_math::is_basis(m, h as int, b) ==> orthonormal(val, b, h),
        forall|t: M::Threshold, i: int, j: int|
            call_ensures(M::threshold, (m, cutoff), t) && 0 <= i < w && 0 <= j < h
                ==> #[trigger] kept(m, t, w as int, h as int, i, j),
        pixels.len() == w * h,
        crate::cpu::plane_done(m, pixels, w as int, h as int, cutoff, out),
        0 <= x < w,
        0 <= y < h,
    ensures
        out.len() == pixels.len(),
        val(out[y * w + x]) == held(val(pixels[y * w + x])),
{
    let (wi, hi) = (w as int, h as int);
    let (rows, cols, t, a, b, c) = choose|
        rows: Seq<M::Sample>,
        cols: Seq<M::Sample>,
        t: M::Threshold,
        a: Seq<M::Sample>,
        b: Seq<M::Sample>,
        c: Seq<M::Sample>,
    |
        #[trigger] crate::cpu::plane_steps(
            m,
            pixels,
            wi,
            hi,
            cutoff,
            rows,
            cols,
            t,
            a,
            b,
            c,
            out,
        );
    let cols_t = crate::dct_math::transposed(cols, hi);
    let rows_t = crate::dct_math::transposed(rows, wi);
    // The column transforms cancel.
    assert forall|i: int| 0 <= i < w implies val(#[trigger] c[y * w + i]) == val(a[y * w + i]) by {
        assert(crate::cpu::column_cell(m, b, wi, hi, cols_t, None, i, y, c[y * wi + i]));
        lemma_column_cell(m, val, b, w, h, cols_t, None, i, y, c[y * wi + i]);
        let s = |j: int| entry(val, a, wi, j, i);
        let there = |k: int| entry(val, b, wi, k, i) * entry(val, cols_t, hi, y, k);
        let back = |k: int|
            crate::sums::total(|j: int| s(j) * entry(val, cols, hi, k, j), h) * entry(
                val,
                cols,
                hi,
                k,
                y,
            );
        assert forall|k: int| 0 <= k < h implies #[trigger] there(k) == back(k) by {
            assert(kept(m, t, wi, hi, i, k));
            assert(crate::cpu::column_cell(m, a, wi, hi, cols, Some(t), i, k, b[k * wi + i]));
            lemma_column_cell(m, val, a, w, h, cols, Some(t), i, k, b[k * wi + i]);
            crate::sums::lemma_total_equal(
                |j: int| entry(val, a, wi, j, i) * entry(val, cols, hi, k, j),
                |j: int| s(j) * entry(val, cols, hi, k, j),
                h,
            );
            crate::dct_math::law_transpose_swaps_cells(cols, hi, y, k);
        }
        crate::sums::lemma_total_equal(there, back, h);
        lemma_undo(val, cols, h, s, y);
    }
    // And so do the row transforms.
    assert(crate::cpu::row_cell(m, c, wi, rows_t, true, x, y, out[y * wi + x]));
    lemma_row_cell(m, val, c, w, rows_t, true, x, y, out[y * wi + x]);
    let s = |i: int| entry(val, pixels, wi, y, i);
    let there = |k: int| entry(val, c, wi, y, k) * entry(val, rows_t, wi, x, k);
    let back = |k: int|
        crate::sums::total(|i: int| s(i) * entry(val, rows, wi, k, i), w) * entry(
            val,
            rows,
            wi,
            k,
            x,
        );
    assert forall|k: int| 0 <= k < w implies #[trigger] there(k) == back(k) by {
        assert(val(c[y * w + k]) == val(a[y * w + k]));
        assert(crate::cpu::row_cell(m, pixels, wi, rows, false, k, y, a[y * wi + k]));
        lemma_row_cell(m, val, pixels, w, rows, false, k, y, a[y * wi + k]);
        crate::sums::lemma_total_equal(
            |i: int| entry(val, pixels, wi, y, i) * entry(val, rows, wi, k, i),
            |i: int| s(i) * entry(val, rows, wi, k, i),
            w,
        );
        crate::dct_math::law_transpose_swaps_cells(rows, wi, x, k);
    }
    crate::sums::lemma_total_equal(there, back, w);
    lemma_undo(val, rows, w, s, x);
}

/// Cell `(x, y)` of a column pass is zero where the mask drops it.
pub(crate) proof fn lemma_dropped_cell<M: PlaneMath>(
    m: &M,
    val: spec_fn(M::Sample) -> real,
    src: Seq<M::Sample>,
    w: int,
    h: int,
    basis: Seq<M::Sample>,
    t: M::Threshold,
    x: int,
    y: int,
    out: M::Sample,
)
    requires
        exact(m, val),
        dropped(m, t, w, h, x, y),
        crate::cpu::column_cell(m, src, w, h, basis, Some(t), x, y, out),
    ensures
        val(out) == 0 as real,
{
}

/// The first basis function is the same everywhere, and of length 1.
pub open spec fn first_is_flat<S>(val: spec_fn(S) -> real, b: Seq<S>, n: nat) -> bool {
    &&& forall|i: int| 0 <= i < n ==> #[trigger] entry(val, b, n as int, 0, i) == val(b[0])
    &&& val(b[0]) * val(b[0]) * n as real == 1 as real
}

/// The sum of all the numbers of a plane.
pub open spec fn plane_total<S>(val: spec_fn(S) -> real, pixels: Seq<S>, w: nat, h: nat) -> real {
    crate::sums::total(
        |j: int| crate::sums::total(|i: int| entry(val, pixels, w as int, j, i), w),
        h,
    )
}

/// The first coefficient: the sum of the plane, scaled by both first functions.
proof fn lemma_first_coefficient<M: PlaneMath>(
    m: &M,
    val: spec_fn(M::Sample) -> real,
    pixels: Seq<M::Sample>,
    w: nat,
    h: nat,
    rows: Seq<M::Sample>,
    cols: Seq<M::Sample>,
    t: M::Threshold,
    a: Seq<M::Sample>,
    b: Seq<M::Sample>,
)
    requires
        exact(m, val),
        w > 0,
        h > 0,
        first_is_flat(val, rows, w),
        first_is_flat(val, cols, h),
        kept(m, t, w as int, h as int, 0, 0),
        crate::cpu::row_pass(m, pixels, w as int, h as int, rows, false, a),
        crate::cpu::column_pass(m, a, w as int, h as int, cols, Some(t), b),
    ensures
        val(b[0]) == plane_total(val, pixels, w, h) * val(rows[0]) * val(cols[0]),
{
    let (wi, hi) = (w as int, h as int);
    let (r0, c0) = (val(rows[0]), val(cols[0]));
    assert(0 * wi + 0 == 0);
    assert(crate::cpu::column_cell(m, a, wi, hi, cols, Some(t), 0, 0, b[0 * wi + 0]));
    lemma_column_cell(m, val, a, w, h, cols, Some(t), 0, 0, b[0]);
    let line = |j: int| crate::sums::total(|i: int| entry(val, pixels, wi, j, i), w);
    let there = |j: int| entry(val, a, wi, j, 0) * entry(val, cols, hi, 0, j);
    let scaled = |j: int| line(j) * r0 * c0;
    assert forall|j: int| 0 <= j < h implies #[trigger] there(j) == scaled(j) by {
        assert(crate::cpu::row_cell(m, pixels, wi, rows, false, 0, j, a[j * wi + 0]));
        lemma_row_cell(m, val, pixels, w, rows, false, 0, j, a[j * wi + 0]);
        let p = |i: int| entry(val, pixels, wi, j, i);
        crate::sums::lemma_total_scale(p, w, r0);
        let products = |i: int| entry(val, pixels, wi, j, i) * entry(val, rows, wi, 0, i);
        assert forall|i: int| 0 <= i < w implies #[trigger] products(i) == p(i) * r0 by {
            assert(entry(val, rows, wi, 0, i) == r0);
        }
        crate::sums::lemma_total_equal(products, |i: int| p(i) * r0, w);
        assert(entry(val, cols, hi, 0, j) == c0);
    }
    crate::sums::lemma_total_equal(there, scaled, h);
    let once = |j: int| line(j) * r0;
    crate::sums::lemma_total_scale(line, h, r0);
    crate::sums::lemma_total_scale(once, h, c0);
    crate::sums::lemma_total_equal(scaled, |j: int| once(j) * c0, h);
}

/// In exact arithmetic, with a cutoff that keeps the first coefficient only,
/// every pixel becomes the average of the plane.
pub proof fn law_lowest_cutoff_gives_the_average<M: PlaneMath>(
    m: &M,
    val: spec_fn(M::Sample) -> real,
    pixels: Seq<M::Sample>,
    w: nat,
    h: nat,
    cutoff: M::Cutoff,
    out: Seq<M::Sample>,
    x: int,
    y: int,
)
    requires
        exact(m, val),
        forall|b: Seq<M::Sample>| #[trigger]
            crate::dct_math::is_basis(m, w as int, b) ==> first_is_flat(val, b, w),
        forall|b: Seq<M::Sample>| #[trigger]
            crate::dct_math::is_basis(m, h as int, b) ==> first_is_flat(val, b, h),
        forall|t: M::Threshold| #[trigger]
            call_ensures(M::threshold, (m, cutoff), t) ==> kept(m, t, w as int, h as int, 0, 0),
        forall|t: M::Threshold, i: int, j: int|
            call_ensures(M::threshold, (m, cutoff), t) && 0 <= i < w && 0 <= j < h && (i != 0 || j
                != 0) ==> #[trigger] dropped(m, t, w as int, h as int, i, j),
        pixels.len() == w * h,
        crate::cpu::plane_done(m, pixels, w as int, h as int, cutoff, out),
        0 <= x < w,
        0 <= y < h,
    ensures
        out.len() == pixels.len(),
        exists|average: real|
            {
                &&& average * (w as real * h as real) == plane_total(val, pixels, w, h)
                &&& val(out[y * w + x]) == #[trigger] held(average)
            },
{
    let (wi, hi) = (w as int, h as int);
    let (rows, cols, t, a, b, c) = choose|
        rows: Seq<M::Sample>,
        cols: Seq<M::Sample>,
        t: M::Threshold,
        a: Seq<M::Sample>,
        b: Seq<M::Sample>,
        c: Seq<M::Sample>,
    |
        #[trigger] crate::cpu::plane_steps(
            m,
            pixels,
            wi,
            hi,
            cutoff,
            rows,
            cols,
            t,
            a,
            b,
            c,
            out,
        );
    let cols_t = crate::dct_math::transposed(cols, hi);
    let rows_t = crate::dct_math::transposed(rows, wi);
    let (r0, c0) = (val(rows[0]), val(cols[0]));
    lemma_first_coefficient(m, val, pixels, w, h, rows, cols, t, a, b);
    // Only the first column is left after the inverse column transform.
    assert forall|i: int| 0 <= i < w implies val(#[trigger] c[y * w + i]) == (if i == 0 {
        val(b[0]) * c0
    } else {
        0 as real
    }) by {
        assert(crate::cpu::column_cell(m, b, wi, hi, cols_t, None, i, y, c[y * wi + i]));
        lemma_column_cell(m, val, b, w, h, cols_t, None, i, y, c[y * wi + i]);
        let there = |k: int| entry(val, b, wi, k, i) * entry(val, cols_t, hi, y, k);
        assert forall|k: int| 0 <= k < h && (k != 0 || i != 0) implies #[trigger] there(k)
            == 0 as real by {
            assert(dropped(m, t, wi, hi, i, k));
            assert(crate::cpu::column_cell(m, a, wi, hi, cols, Some(t), i, k, b[k * wi + i]));
            lemma_dropped_cell(m, val, a, wi, hi, cols, t, i, k, b[k * wi + i]);
            let f = entry(val, cols_t, hi, y, k);
            assert((0 as real) * f == 0 as real) by (nonlinear_arith);
        }
        if i == 0 {
            crate::sums::lemma_total_single(there, h, 0);
            crate::dct_math::law_transpose_swaps_cells(cols, hi, y, 0);
            assert(0 * wi + 0 == 0 && 0 * hi + y == y);
            assert(entry(val, cols, hi, 0, y) == c0);
            assert(there(0) == val(b[0]) * c0);
        } else {
            crate::sums::lemma_total_zero(there, h);
        }
    }
    assert(crate::cpu::row_cell(m, c, wi, rows_t, true, x, y, out[y * wi + x]));
    lemma_row_cell(m, val, c, w, rows_t, true, x, y, out[y * wi + x]);
    let there = |k: int| entry(val, c, wi, y, k) * entry(val, rows_t, wi, x, k);
    assert forall|k: int| 0 <= k < w && k != 0 implies #[trigger] there(k) == 0 as real by {
        assert(val(c[y * w + k]) == 0 as real);
        let f = entry(val, rows_t, wi, x, k);
        assert((0 as real) * f == 0 as real) by (nonlinear_arith);
    }
    crate::sums::lemma_total_single(there, w, 0);
    crate::dct_math::law_transpose_swaps_cells(rows, wi, x, 0);
    assert(0 * wi + x == x);
    assert(entry(val, rows, wi, 0, x) == r0);
    assert(val(c[y * w + 0]) == val(b[0]) * c0);
    let p = plane_total(val, pixels, w, h);
    let average = there(0);
    let first = val(b[0]);
    assert(average == first * c0 * r0);
    let (wr, hr) = (w as real, h as real);
    assert(average * (wr * hr) == p) by (nonlinear_arith)
        requires
            average == first * c0 * r0,
            first == p * r0 * c0,
            r0 * r0 * wr == 1 as real,
            c0 * c0 * hr == 1 as real,
    {
        assert(average * (wr * hr) == p * ((r0 * r0 * wr) * (c0 * c0 * hr)));
    }
    assert(val(out[y * w + x]) == held(average));
}

} // verus!
