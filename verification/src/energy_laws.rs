//! How much a plane varies before and after the cutoff, where the arithmetic is
//! exact and the basis is that of the cosines.
use crate::dct_math::PlaneMath;
use vstd::prelude::*;

verus! {

/// The basis functions of `b` are of length 1 and at right angles.
pub open spec fn rows_orthonormal<S>(val: spec_fn(S) -> real, b: Seq<S>, n: nat) -> bool {
    forall|k: int, j: int|
        0 <= k < n && 0 <= j < n ==> #[trigger] crate::cosine_laws::row_product(val, b, n, k, j)
            == (if k == j {
            1 as real
        } else {
            0 as real
        })
}

/// Position `x` of the signal with the coefficients `s`.
pub open spec fn rebuilt_at<S>(
    val: spec_fn(S) -> real,
    b: Seq<S>,
    n: nat,
    s: spec_fn(int) -> real,
    x: int,
) -> real {
    crate::sums::total(|k: int| s(k) * crate::plane_laws::entry(val, b, n as int, k, x), n)
}

/// The product of a signal and a basis function is the coefficient.
pub(crate) proof fn lemma_coefficient<S>(
    val: spec_fn(S) -> real,
    b: Seq<S>,
    n: nat,
    s: spec_fn(int) -> real,
    k: int,
)
    requires
        rows_orthonormal(val, b, n),
        0 <= k < n,
    ensures
        crate::sums::total(
            |x: int|
                rebuilt_at(val, b, n, s, x) * crate::plane_laws::entry(val, b, n as int, k, x),
            n,
        ) == s(k),
{
    let ni = n as int;
    let e = |l: int, x: int| crate::plane_laws::entry(val, b, ni, l, x);
    let outer = |x: int| rebuilt_at(val, b, n, s, x) * crate::plane_laws::entry(val, b, ni, k, x);
    let cell = |x: int, l: int| s(l) * e(l, x) * e(k, x);
    let by_x = |x: int| crate::sums::total(|l: int| cell(x, l), n);
    assert forall|x: int| 0 <= x < n implies #[trigger] outer(x) == by_x(x) by {
        let inner = |l: int| s(l) * crate::plane_laws::entry(val, b, ni, l, x);
        crate::sums::lemma_total_scale(inner, n, e(k, x));
        crate::sums::lemma_total_equal(|l: int| inner(l) * e(k, x), |l: int| cell(x, l), n);
    }
    crate::sums::lemma_total_equal(outer, by_x, n);
    crate::sums::lemma_total_swap(cell, n, n);
    let by_l = |l: int| crate::sums::total(|x: int| cell(x, l), n);
    assert forall|l: int| 0 <= l < n implies #[trigger] by_l(l) == (if l == k {
        s(k)
    } else {
        0 as real
    }) by {
        let p = |x: int|
            crate::plane_laws::entry(val, b, ni, l, x) * crate::plane_laws::entry(
                val,
                b,
                ni,
                k,
                x,
            );
        let f = s(l);
        crate::sums::lemma_total_scale(p, n, f);
        assert forall|x: int| 0 <= x < n implies #[trigger] cell(x, l) == p(x) * f by {
            let (g, q) = (e(l, x), e(k, x));
            assert(f * g * q == g * q * f) by (nonlinear_arith);
        }
        crate::sums::lemma_total_equal(|x: int| cell(x, l), |x: int| p(x) * f, n);
        assert(crate::sums::total(p, n) == crate::cosine_laws::row_product(val, b, n, l, k));
        assert((1 as real) * f == f && (0 as real) * f == 0 as real) by (nonlinear_arith);
    }
    crate::sums::lemma_total_single(by_l, n, k);
}

/// A signal has the energy of its coefficients.
proof fn lemma_energy_is_kept<S>(
    val: spec_fn(S) -> real,
    b: Seq<S>,
    n: nat,
    s: spec_fn(int) -> real,
)
    requires
        rows_orthonormal(val, b, n),
    ensures
        crate::sums::total(
            |x: int| rebuilt_at(val, b, n, s, x) * rebuilt_at(val, b, n, s, x),
            n,
        ) == crate::sums::total(|k: int| s(k) * s(k), n),
{
    let ni = n as int;
    let p = |x: int| rebuilt_at(val, b, n, s, x);
    let e = |k: int, x: int| crate::plane_laws::entry(val, b, ni, k, x);
    let squares = |x: int| rebuilt_at(val, b, n, s, x) * rebuilt_at(val, b, n, s, x);
    let cell = |x: int, k: int| s(k) * e(k, x) * p(x);
    let by_x = |x: int| crate::sums::total(|k: int| cell(x, k), n);
    assert forall|x: int| 0 <= x < n implies #[trigger] squares(x) == by_x(x) by {
        let inner = |k: int| s(k) * crate::plane_laws::entry(val, b, ni, k, x);
        crate::sums::lemma_total_scale(inner, n, p(x));
        crate::sums::lemma_total_equal(|k: int| inner(k) * p(x), |k: int| cell(x, k), n);
    }
    crate::sums::lemma_total_equal(squares, by_x, n);
    crate::sums::lemma_total_swap(cell, n, n);
    let by_k = |k: int| crate::sums::total(|x: int| cell(x, k), n);
    assert forall|k: int| 0 <= k < n implies #[trigger] by_k(k) == s(k) * s(k) by {
        lemma_coefficient(val, b, n, s, k);
        let q = |x: int|
            rebuilt_at(val, b, n, s, x) * crate::plane_laws::entry(val, b, ni, k, x);
        let f = s(k);
        crate::sums::lemma_total_scale(q, n, f);
        assert forall|x: int| 0 <= x < n implies #[trigger] cell(x, k) == q(x) * f by {
            let (g, r) = (e(k, x), p(x));
            assert(f * g * r == r * g * f) by (nonlinear_arith);
        }
        crate::sums::lemma_total_equal(|x: int| cell(x, k), |x: int| q(x) * f, n);
    }
    crate::sums::lemma_total_equal(by_k, |k: int| s(k) * s(k), n);
}

/// The sum of a signal is a multiple of its first coefficient.
proof fn lemma_sum_is_first<S>(
    val: spec_fn(S) -> real,
    b: Seq<S>,
    n: nat,
    s: spec_fn(int) -> real,
)
    requires
        rows_orthonormal(val, b, n),
        crate::plane_laws::first_is_flat(val, b, n),
        n > 0,
    ensures
        crate::sums::total(|x: int| rebuilt_at(val, b, n, s, x), n) * val(b[0]) == s(0),
{
    let ni = n as int;
    let flat = val(b[0]);
    lemma_coefficient(val, b, n, s, 0);
    let p = |x: int| rebuilt_at(val, b, n, s, x);
    crate::sums::lemma_total_scale(p, n, flat);
    let q = |x: int| rebuilt_at(val, b, n, s, x) * crate::plane_laws::entry(val, b, ni, 0, x);
    assert forall|x: int| 0 <= x < n implies #[trigger] q(x) == p(x) * flat by {
        assert(crate::plane_laws::entry(val, b, ni, 0, x) == flat);
    }
    crate::sums::lemma_total_equal(q, |x: int| p(x) * flat, n);
}

/// The sum of the cells of a plane.
pub open spec fn plane_sum(f: spec_fn(int, int) -> real, w: nat, h: nat) -> real {
    crate::sums::total(|y: int| crate::sums::total(|x: int| f(x, y), w), h)
}

/// The sum of the squares of the cells of a plane.
pub open spec fn plane_energy(f: spec_fn(int, int) -> real, w: nat, h: nat) -> real {
    crate::sums::total(|y: int| crate::sums::total(|x: int| f(x, y) * f(x, y), w), h)
}

/// How much a plane varies: its variance, times the square of the number of its
/// cells.
pub open spec fn spread(f: spec_fn(int, int) -> real, w: nat, h: nat) -> real {
    (w as real * h as real) * plane_energy(f, w, h) - plane_sum(f, w, h) * plane_sum(f, w, h)
}

/// `out` is the plane `f`, held to the range of a pixel.
pub open spec fn held_from<S>(
    val: spec_fn(S) -> real,
    out: Seq<S>,
    w: nat,
    h: nat,
    f: spec_fn(int, int) -> real,
) -> bool {
    forall|x: int, y: int|
        0 <= x < w && 0 <= y < h ==> val(#[trigger] out[y * w + x]) == crate::plane_laws::held(
            f(x, y),
        )
}

/// The plane that the coefficients in `b` stand for, before it is held to the
/// range of a pixel, where `c` is `b` after the inverse column transform.
pub open spec fn rebuilt_plane<S>(
    val: spec_fn(S) -> real,
    rows: Seq<S>,
    c: Seq<S>,
    w: nat,
) -> spec_fn(int, int) -> real {
    |x: int, y: int|
        rebuilt_at(val, rows, w, |k: int| crate::plane_laws::entry(val, c, w as int, y, k), x)
}

/// The energy of the coefficients.
pub open spec fn coefficient_energy<S>(
    val: spec_fn(S) -> real,
    b: Seq<S>,
    w: nat,
    h: nat,
) -> real {
    crate::sums::total(
        |i: int|
            crate::sums::total(
                |k: int|
                    crate::plane_laws::entry(val, b, w as int, k, i) * crate::plane_laws::entry(
                        val,
                        b,
                        w as int,
                        k,
                        i,
                    ),
                h,
            ),
        w,
    )
}

/// The inverse column transform, as numbers.
pub(crate) proof fn lemma_columns_rebuilt<M: PlaneMath>(
    m: &M,
    val: spec_fn(M::Sample) -> real,
    w: nat,
    h: nat,
    cols: Seq<M::Sample>,
    b: Seq<M::Sample>,
    c: Seq<M::Sample>,
    i: int,
    y: int,
)
    requires
        crate::plane_laws::exact(m, val),
        crate::cpu::column_pass(
            m,
            b,
            w as int,
            h as int,
            crate::dct_math::transposed(cols, h as int),
            None,
            c,
        ),
        0 <= i < w,
        0 <= y < h,
    ensures
        crate::plane_laws::entry(val, c, w as int, y, i) == rebuilt_at(
            val,
            cols,
            h,
            |k: int| crate::plane_laws::entry(val, b, w as int, k, i),
            y,
        ),
{
    let (wi, hi) = (w as int, h as int);
    let cols_t = crate::dct_math::transposed(cols, hi);
    assert(crate::cpu::column_cell(m, b, wi, hi, cols_t, None, i, y, c[y * wi + i]));
    crate::plane_laws::lemma_column_cell(m, val, b, w, h, cols_t, None, i, y, c[y * wi + i]);
    let s = |k: int| crate::plane_laws::entry(val, b, wi, k, i);
    let there = |k: int|
        crate::plane_laws::entry(val, b, wi, k, i) * crate::plane_laws::entry(
            val,
            cols_t,
            hi,
            y,
            k,
        );
    let back = |k: int| s(k) * crate::plane_laws::entry(val, cols, hi, k, y);
    assert forall|k: int| 0 <= k < h implies #[trigger] there(k) == back(k) by {
        crate::dct_math::law_transpose_swaps_cells(cols, hi, y, k);
    }
    crate::sums::lemma_total_equal(there, back, h);
}

/// What the inverse transform makes of the coefficients `b`.
pub(crate) proof fn lemma_plane_rebuilt<M: PlaneMath>(
    m: &M,
    val: spec_fn(M::Sample) -> real,
    w: nat,
    h: nat,
    rows: Seq<M::Sample>,
    cols: Seq<M::Sample>,
    b: Seq<M::Sample>,
    c: Seq<M::Sample>,
    out: Seq<M::Sample>,
)
    requires
        crate::plane_laws::exact(m, val),
        w > 0,
        h > 0,
        rows_orthonormal(val, rows, w),
        rows_orthonormal(val, cols, h),
        crate::plane_laws::first_is_flat(val, rows, w),
        crate::plane_laws::first_is_flat(val, cols, h),
        crate::cpu::column_pass(
            m,
            b,
            w as int,
            h as int,
            crate::dct_math::transposed(cols, h as int),
            None,
            c,
        ),
        crate::cpu::row_pass(
            m,
            c,
            w as int,
            h as int,
            crate::dct_math::transposed(rows, w as int),
            true,
            out,
        ),
    ensures
        held_from(val, out, w, h, rebuilt_plane(val, rows, c, w)),
        plane_energy(rebuilt_plane(val, rows, c, w), w, h) == coefficient_energy(val, b, w, h),
        plane_sum(rebuilt_plane(val, rows, c, w), w, h) * val(rows[0]) * val(cols[0]) == val(b[0]),
{
    let (wi, hi) = (w as int, h as int);
    let f = rebuilt_plane(val, rows, c, w);
    let rows_t = crate::dct_math::transposed(rows, wi);
    // The pixels.
    assert forall|x: int, y: int| 0 <= x < w && 0 <= y < h implies val(#[trigger] out[y * w + x])
        == crate::plane_laws::held(f(x, y)) by {
        assert(crate::cpu::row_cell(m, c, wi, rows_t, true, x, y, out[y * wi + x]));
        crate::plane_laws::lemma_row_cell(m, val, c, w, rows_t, true, x, y, out[y * wi + x]);
        let s = |k: int| crate::plane_laws::entry(val, c, wi, y, k);
        let there = |k: int|
            crate::plane_laws::entry(val, c, wi, y, k) * crate::plane_laws::entry(
                val,
                rows_t,
                wi,
                x,
                k,
            );
        let back = |k: int| s(k) * crate::plane_laws::entry(val, rows, wi, k, x);
        assert forall|k: int| 0 <= k < w implies #[trigger] there(k) == back(k) by {
            crate::dct_math::law_transpose_swaps_cells(rows, wi, x, k);
        }
        crate::sums::lemma_total_equal(there, back, w);
    }
    // The energy: first along the rows, then along the columns.
    let by_y = |y: int| crate::sums::total(|x: int| f(x, y) * f(x, y), w);
    let square = |y: int, i: int|
        crate::plane_laws::entry(val, c, wi, y, i) * crate::plane_laws::entry(val, c, wi, y, i);
    let halfway = |y: int| crate::sums::total(|i: int| square(y, i), w);
    assert forall|y: int| 0 <= y < h implies #[trigger] by_y(y) == halfway(y) by {
        let s = |k: int| crate::plane_laws::entry(val, c, wi, y, k);
        lemma_energy_is_kept(val, rows, w, s);
        crate::sums::lemma_total_equal(
            |x: int| f(x, y) * f(x, y),
            |x: int| rebuilt_at(val, rows, w, s, x) * rebuilt_at(val, rows, w, s, x),
            w,
        );
        crate::sums::lemma_total_equal(|k: int| s(k) * s(k), |i: int| square(y, i), w);
    }
    crate::sums::lemma_total_equal(by_y, halfway, h);
    crate::sums::lemma_total_swap(square, h, w);
    let by_i = |i: int| crate::sums::total(|y: int| square(y, i), h);
    let done = |i: int|
        crate::sums::total(
            |k: int|
                crate::plane_laws::entry(val, b, wi, k, i) * crate::plane_laws::entry(
                    val,
                    b,
                    wi,
                    k,
                    i,
                ),
            h,
        );
    assert forall|i: int| 0 <= i < w implies #[trigger] by_i(i) == done(i) by {
        let s = |k: int| crate::plane_laws::entry(val, b, wi, k, i);
        lemma_energy_is_kept(val, cols, h, s);
        let again = |y: int| rebuilt_at(val, cols, h, s, y) * rebuilt_at(val, cols, h, s, y);
        let column = |y: int| square(y, i);
        assert forall|y: int| 0 <= y < h implies #[trigger] column(y) == again(y) by {
            lemma_columns_rebuilt(m, val, w, h, cols, b, c, i, y);
        }
        crate::sums::lemma_total_equal(column, again, h);
        crate::sums::lemma_total_equal(
            |k: int| s(k) * s(k),
            |k: int|
                crate::plane_laws::entry(val, b, wi, k, i) * crate::plane_laws::entry(
                    val,
                    b,
                    wi,
                    k,
                    i,
                ),
            h,
        );
    }
    crate::sums::lemma_total_equal(by_i, done, w);
    // The sum.
    let (r0, c0) = (val(rows[0]), val(cols[0]));
    let line = |y: int| crate::sums::total(|x: int| f(x, y), w);
    crate::sums::lemma_total_scale(line, h, r0);
    let s = |k: int| crate::plane_laws::entry(val, b, wi, k, 0);
    let first = |y: int| rebuilt_at(val, cols, h, s, y);
    let scaled = |y: int| line(y) * r0;
    assert forall|y: int| 0 <= y < h implies #[trigger] scaled(y) == first(y) by {
        let sy = |k: int| crate::plane_laws::entry(val, c, wi, y, k);
        lemma_sum_is_first(val, rows, w, sy);
        crate::sums::lemma_total_equal(
            |x: int| f(x, y),
            |x: int| rebuilt_at(val, rows, w, sy, x),
            w,
        );
        lemma_columns_rebuilt(m, val, w, h, cols, b, c, 0, y);
    }
    crate::sums::lemma_total_equal(scaled, first, h);
    lemma_sum_is_first(val, cols, h, s);
    assert(0 * wi + 0 == 0);
}

/// Whatever the threshold `high` drops of cell `(x, y)`, `low` drops too.
pub open spec fn drops_no_less<M: PlaneMath>(
    m: &M,
    low: M::Threshold,
    high: M::Threshold,
    w: int,
    h: int,
    x: int,
    y: int,
) -> bool {
    ||| crate::plane_laws::kept(m, low, w, h, x, y) && crate::plane_laws::kept(m, high, w, h, x, y)
    ||| crate::plane_laws::dropped(m, low, w, h, x, y) && (crate::plane_laws::kept(
        m,
        high,
        w,
        h,
        x,
        y,
    ) || crate::plane_laws::dropped(m, high, w, h, x, y))
}

/// The plane of numbers that a plane of samples stands for.
pub open spec fn numbers<S>(
    val: spec_fn(S) -> real,
    s: Seq<S>,
    w: nat,
) -> spec_fn(int, int) -> real {
    |x: int, y: int| crate::plane_laws::entry(val, s, w as int, y, x)
}

/// Coefficient `(x, y)` of the plane `p`: its product with function `x` of the
/// basis `rows` along the rows, and with function `y` of `cols` along the
/// columns.
pub open spec fn coefficient(
    p: spec_fn(int, int) -> real,
    rows: spec_fn(int, int) -> real,
    cols: spec_fn(int, int) -> real,
    w: nat,
    h: nat,
    x: int,
    y: int,
) -> real {
    crate::sums::total(
        |j: int| crate::sums::total(|i: int| p(i, j) * rows(x, i), w) * cols(y, j),
        h,
    )
}

/// The cosine basis, as numbers.
pub open spec fn cosines(
    c: spec_fn(int) -> real,
    flat: real,
    wave: real,
) -> spec_fn(int, int) -> real {
    |k: int, i: int| crate::basis_laws::cosine_entry(c, flat, wave, k, i)
}

/// The entries of `b` are those of `e`, orthonormal by row and by column, and the
/// first row is flat.
pub open spec fn serves<S>(val: spec_fn(S) -> real, b: Seq<S>, e: spec_fn(int, int) -> real, n: nat) -> bool {
    &&& rows_orthonormal(val, b, n)
    &&& crate::plane_laws::orthonormal(val, b, n)
    &&& crate::plane_laws::first_is_flat(val, b, n)
    &&& b.len() == n * n
    &&& forall|k: int, i: int|
        0 <= k < n && 0 <= i < n ==> #[trigger] crate::plane_laws::entry(val, b, n as int, k, i)
            == e(k, i)
}

/// The products of a signal with the basis functions have its energy.
proof fn lemma_products_keep_energy<S>(
    val: spec_fn(S) -> real,
    b: Seq<S>,
    e: spec_fn(int, int) -> real,
    n: nat,
    s: spec_fn(int) -> real,
    products: spec_fn(int) -> real,
)
    requires
        serves(val, b, e, n),
        forall|k: int|
            0 <= k < n ==> #[trigger] products(k) == crate::sums::total(
                |i: int| s(i) * e(k, i),
                n,
            ),
    ensures
        crate::sums::total(|k: int| products(k) * products(k), n) == crate::sums::total(
            |i: int| s(i) * s(i),
            n,
        ),
{
    let ni = n as int;
    let bt = crate::dct_math::transposed(b, ni);
    assert forall|k: int, j: int|
        0 <= k < n && 0 <= j < n implies #[trigger] crate::cosine_laws::row_product(
        val,
        bt,
        n,
        k,
        j,
    ) == (if k == j {
        1 as real
    } else {
        0 as real
    }) by {
        let there = |i: int|
            crate::plane_laws::entry(val, bt, ni, k, i) * crate::plane_laws::entry(
                val,
                bt,
                ni,
                j,
                i,
            );
        let back = |i: int|
            crate::plane_laws::entry(val, b, ni, i, k) * crate::plane_laws::entry(val, b, ni, i, j);
        assert forall|i: int| 0 <= i < n implies #[trigger] there(i) == back(i) by {
            crate::dct_math::law_transpose_swaps_cells(b, ni, k, i);
            crate::dct_math::law_transpose_swaps_cells(b, ni, j, i);
        }
        crate::sums::lemma_total_equal(there, back, n);
        assert(crate::plane_laws::column_product(val, b, n, k, j) == crate::sums::total(back, n));
    }
    lemma_energy_is_kept(val, bt, n, s);
    let again = |k: int| rebuilt_at(val, bt, n, s, k) * rebuilt_at(val, bt, n, s, k);
    let squares = |k: int| products(k) * products(k);
    assert forall|k: int| 0 <= k < n implies #[trigger] squares(k) == again(k) by {
        let there = |i: int| s(i) * crate::plane_laws::entry(val, bt, ni, i, k);
        let back = |i: int| s(i) * e(k, i);
        assert forall|i: int| 0 <= i < n implies #[trigger] there(i) == back(i) by {
            crate::dct_math::law_transpose_swaps_cells(b, ni, i, k);
            assert(crate::plane_laws::entry(val, b, ni, k, i) == e(k, i));
        }
        crate::sums::lemma_total_equal(there, back, n);
        assert(products(k) == crate::sums::total(back, n));
    }
    crate::sums::lemma_total_equal(squares, again, n);
}

/// The energy of the coefficients `q`, the first one left out.
spec fn others(q: spec_fn(int, int) -> real, w: nat, h: nat) -> real {
    crate::sums::total(|x: int| crate::sums::total(|y: int| other(q, x, y), h), w)
}

/// The square of coefficient `(x, y)`, or zero for the first one.
spec fn other(q: spec_fn(int, int) -> real, x: int, y: int) -> real {
    if x == 0 && y == 0 {
        0 as real
    } else {
        q(x, y) * q(x, y)
    }
}

/// The energy of all the coefficients.
spec fn full_energy(q: spec_fn(int, int) -> real, w: nat, h: nat) -> real {
    crate::sums::total(|x: int| crate::sums::total(|y: int| q(x, y) * q(x, y), h), w)
}

/// All the energy is that of the first coefficient and of the others.
proof fn lemma_first_and_others(q: spec_fn(int, int) -> real, w: nat, h: nat)
    requires
        w > 0,
        h > 0,
    ensures
        full_energy(q, w, h) == others(q, w, h) + q(0, 0) * q(0, 0),
{
    let f = q(0, 0) * q(0, 0);
    let first = |x: int, y: int|
        if x == 0 && y == 0 {
            f
        } else {
            0 as real
        };
    let (all, rest, one) = (
        |x: int| crate::sums::total(|y: int| q(x, y) * q(x, y), h),
        |x: int| crate::sums::total(|y: int| other(q, x, y), h),
        |x: int| crate::sums::total(|y: int| first(x, y), h),
    );
    assert forall|x: int| 0 <= x < w implies #[trigger] all(x) == rest(x) + one(x) by {
        let (u, v) = (|y: int| other(q, x, y), |y: int| first(x, y));
        crate::sums::lemma_total_plus(u, v, h);
        crate::sums::lemma_total_equal(
            |y: int| q(x, y) * q(x, y),
            |y: int| u(y) + v(y),
            h,
        );
    }
    crate::sums::lemma_total_plus(rest, one, w);
    crate::sums::lemma_total_equal(all, |x: int| rest(x) + one(x), w);
    assert forall|x: int| 0 <= x < w && x != 0 implies #[trigger] one(x) == 0 as real by {
        crate::sums::lemma_total_zero(|y: int| first(x, y), h);
    }
    crate::sums::lemma_total_single(|y: int| first(0, y), h, 0);
    crate::sums::lemma_total_single(one, w, 0);
}

/// A plane varies as its coefficients beside the first have energy.
proof fn lemma_spread(
    f: spec_fn(int, int) -> real,
    q: spec_fn(int, int) -> real,
    w: nat,
    h: nat,
    r0: real,
    c0: real,
)
    requires
        w > 0,
        h > 0,
        plane_energy(f, w, h) == full_energy(q, w, h),
        plane_sum(f, w, h) * r0 * c0 == q(0, 0),
        r0 * r0 * w as real == 1 as real,
        c0 * c0 * h as real == 1 as real,
    ensures
        spread(f, w, h) == (w as real * h as real) * others(q, w, h),
{
    lemma_first_and_others(q, w, h);
    let (s, d, e, rest) = (
        plane_sum(f, w, h),
        q(0, 0),
        plane_energy(f, w, h),
        others(q, w, h),
    );
    let (wr, hr) = (w as real, h as real);
    assert((wr * hr) * e - s * s == (wr * hr) * rest) by (nonlinear_arith)
        requires
            e == rest + d * d,
            s * r0 * c0 == d,
            r0 * r0 * wr == 1 as real,
            c0 * c0 * hr == 1 as real,
    {
        assert((wr * hr) * (d * d) == (s * s) * ((r0 * r0 * wr) * (c0 * c0 * hr)));
        assert((wr * hr) * (rest + d * d) == (wr * hr) * rest + (wr * hr) * (d * d));
    }
}

/// Smaller coefficients beside the first have no more energy.
proof fn lemma_others_at_most(
    p: spec_fn(int, int) -> real,
    q: spec_fn(int, int) -> real,
    w: nat,
    h: nat,
)
    requires
        forall|x: int, y: int|
            0 <= x < w && 0 <= y < h ==> #[trigger] p(x, y) == q(x, y) || p(x, y) == 0 as real,
    ensures
        others(p, w, h) <= others(q, w, h),
        forall|x: int, y: int|
            0 <= x < w && 0 <= y < h && !(x == 0 && y == 0) && #[trigger] p(x, y) == 0 as real
                && q(x, y) != 0 as real ==> others(p, w, h) < others(q, w, h),
{
    let (one, two) = (
        |x: int| crate::sums::total(|y: int| other(p, x, y), h),
        |x: int| crate::sums::total(|y: int| other(q, x, y), h),
    );
    assert forall|x: int, y: int| 0 <= x < w && 0 <= y < h implies #[trigger] other(p, x, y)
        <= other(q, x, y) by {
        let (u, v) = (p(x, y), q(x, y));
        assert(v * v >= 0 as real) by (nonlinear_arith);
        assert((0 as real) * (0 as real) == 0 as real) by (nonlinear_arith);
    }
    assert forall|x: int| 0 <= x < w implies #[trigger] one(x) <= two(x) by {
        let (u, v) = (|y: int| other(p, x, y), |y: int| other(q, x, y));
        assert forall|y: int| 0 <= y < h implies #[trigger] u(y) <= v(y) by {
            assert(other(p, x, y) <= other(q, x, y));
        }
        crate::sums::lemma_total_at_most(u, v, h);
    }
    crate::sums::lemma_total_at_most(one, two, w);
    assert forall|x: int, y: int|
        0 <= x < w && 0 <= y < h && !(x == 0 && y == 0) && #[trigger] p(x, y) == 0 as real && q(
            x,
            y,
        ) != 0 as real implies others(p, w, h) < others(q, w, h) by {
        let (u, v) = (|j: int| other(p, x, j), |j: int| other(q, x, j));
        assert forall|j: int| 0 <= j < h implies #[trigger] u(j) <= v(j) by {
            assert(other(p, x, j) <= other(q, x, j));
        }
        let e = q(x, y);
        assert(e * e > 0 as real) by (nonlinear_arith)
            requires
                e != 0 as real,
        ;
        assert((0 as real) * (0 as real) == 0 as real) by (nonlinear_arith);
        assert(u(y) < v(y));
        crate::sums::lemma_total_less(u, v, h, y);
        assert(one(x) < two(x));
        crate::sums::lemma_total_less(one, two, w, x);
    }
}

/// The sum of the squares of a signal less `c`.
proof fn lemma_shifted(s: spec_fn(int) -> real, n: nat, c: real)
    ensures
        crate::sums::total(|i: int| (s(i) - c) * (s(i) - c), n) == crate::sums::total(
            |i: int| s(i) * s(i),
            n,
        ) - (2 as real * c) * crate::sums::total(s, n) + (c * c) * n as real,
    decreases n,
{
    let shifted = |i: int| (s(i) - c) * (s(i) - c);
    let squares = |i: int| s(i) * s(i);
    let t = crate::sums::total(s, n);
    if n == 0 {
        assert((2 as real * c) * t == 0 as real && (c * c) * n as real == 0 as real)
            by (nonlinear_arith)
            requires
                t == 0 as real,
                n as real == 0 as real,
        ;
    } else {
        let less = (n - 1) as nat;
        lemma_shifted(s, less, c);
        let (head, v) = (crate::sums::total(s, less), s(n - 1));
        let (nr, lr) = (n as real, less as real);
        assert((v - c) * (v - c) - (2 as real * c) * head + (c * c) * lr == v * v - (2 as real * c)
            * (head + v) + (c * c) * nr) by (nonlinear_arith)
            requires
                nr == lr + 1 as real,
        ;
    }
}

/// The energy of a plane less `c`.
proof fn lemma_shifted_plane(f: spec_fn(int, int) -> real, w: nat, h: nat, c: real)
    ensures
        plane_energy(|x: int, y: int| f(x, y) - c, w, h) == plane_energy(f, w, h) - (2 as real * c)
            * plane_sum(f, w, h) + (c * c) * (w as real * h as real),
    decreases h,
{
    let g = |x: int, y: int| f(x, y) - c;
    let s = plane_sum(f, w, h);
    let (wr, hr) = (w as real, h as real);
    if h == 0 {
        assert((2 as real * c) * s == 0 as real && (c * c) * (wr * hr) == 0 as real)
            by (nonlinear_arith)
            requires
                s == 0 as real,
                hr == 0 as real,
        ;
    } else {
        let less = (h - 1) as nat;
        lemma_shifted_plane(f, w, less, c);
        let line = |x: int| f(x, h - 1);
        lemma_shifted(line, w, c);
        crate::sums::lemma_total_equal(
            |x: int| g(x, h - 1) * g(x, h - 1),
            |x: int| (line(x) - c) * (line(x) - c),
            w,
        );
        crate::sums::lemma_total_equal(
            |x: int| f(x, h - 1) * f(x, h - 1),
            |x: int| line(x) * line(x),
            w,
        );
        crate::sums::lemma_total_equal(|x: int| f(x, h - 1), line, w);
        let (head, v) = (plane_sum(f, w, less), crate::sums::total(line, w));
        let lr = less as real;
        assert((2 as real * c) * (head + v) == (2 as real * c) * head + (2 as real * c) * v)
            by (nonlinear_arith);
        assert((c * c) * (wr * hr) == (c * c) * (wr * lr) + (c * c) * wr) by (nonlinear_arith)
            requires
                hr == lr + 1 as real,
        ;
    }
}

/// Holding two numbers to the range of a pixel brings them no further apart.
proof fn lemma_held_is_closer(a: real, b: real)
    ensures
        (crate::plane_laws::held(a) - crate::plane_laws::held(b)) * (crate::plane_laws::held(a)
            - crate::plane_laws::held(b)) <= (a - b) * (a - b),
{
    let (u, v) = (crate::plane_laws::held(a) - crate::plane_laws::held(b), a - b);
    if a >= b {
        assert(u * u <= v * v) by (nonlinear_arith)
            requires
                0 as real <= u <= v,
        ;
    } else {
        assert(u * u <= v * v) by (nonlinear_arith)
            requires
                v <= u <= 0 as real,
        ;
    }
}

/// Holding a plane to the range of a pixel makes it vary no more.
proof fn lemma_held_varies_no_more(
    f: spec_fn(int, int) -> real,
    g: spec_fn(int, int) -> real,
    w: nat,
    h: nat,
)
    requires
        w > 0,
        h > 0,
        forall|x: int, y: int|
            0 <= x < w && 0 <= y < h ==> #[trigger] g(x, y) == crate::plane_laws::held(f(x, y)),
    ensures
        spread(g, w, h) <= spread(f, w, h),
{
    let (wr, hr) = (w as real, h as real);
    let cells = wr * hr;
    assert(cells > 0 as real) by (nonlinear_arith)
        requires
            wr > 0 as real,
            hr > 0 as real,
            cells == wr * hr,
    ;
    let s = plane_sum(f, w, h);
    let mean = s / cells;
    assert(mean * cells == s) by (nonlinear_arith)
        requires
            mean == s / cells,
            cells > 0 as real,
    ;
    let c = crate::plane_laws::held(mean);
    lemma_shifted_plane(f, w, h, mean);
    lemma_shifted_plane(g, w, h, c);
    let (fs, gs) = (|x: int, y: int| f(x, y) - mean, |x: int, y: int| g(x, y) - c);
    let (one, two) = (
        |y: int| crate::sums::total(|x: int| gs(x, y) * gs(x, y), w),
        |y: int| crate::sums::total(|x: int| fs(x, y) * fs(x, y), w),
    );
    assert forall|y: int| 0 <= y < h implies #[trigger] one(y) <= two(y) by {
        let (u, v) = (|x: int| gs(x, y) * gs(x, y), |x: int| fs(x, y) * fs(x, y));
        assert forall|x: int| 0 <= x < w implies #[trigger] u(x) <= v(x) by {
            assert(g(x, y) == crate::plane_laws::held(f(x, y)));
            lemma_held_is_closer(f(x, y), mean);
        }
        crate::sums::lemma_total_at_most(u, v, w);
    }
    crate::sums::lemma_total_at_most(one, two, h);
    let (ef, eg, sg) = (plane_energy(f, w, h), plane_energy(g, w, h), plane_sum(g, w, h));
    let (df, dg) = (plane_energy(fs, w, h), plane_energy(gs, w, h));
    assert(dg <= df);
    assert(cells * eg - sg * sg <= cells * ef - s * s) by (nonlinear_arith)
        requires
            dg <= df,
            df == ef - (2 as real * mean) * s + (mean * mean) * cells,
            dg == eg - (2 as real * c) * sg + (c * c) * cells,
            mean * cells == s,
            cells > 0 as real,
    {
        assert(cells * df == cells * ef - s * s) by {
            assert(cells * ((2 as real * mean) * s) == 2 as real * (s * s));
            assert(cells * ((mean * mean) * cells) == s * s);
        }
        let off = sg - c * cells;
        assert(cells * dg == cells * eg - sg * sg + off * off) by {
            assert(off * off == sg * sg - 2 as real * (sg * (c * cells)) + (c * cells) * (c
                * cells));
            assert(cells * ((2 as real * c) * sg) == 2 as real * (sg * (c * cells)));
            assert(cells * ((c * c) * cells) == (c * cells) * (c * cells));
        }
        assert(off * off >= 0 as real);
        assert(cells * dg <= cells * df);
    }
}

/// How much a plane varies, by its coefficients.
proof fn lemma_plane_spread<S>(
    val: spec_fn(S) -> real,
    rows: Seq<S>,
    cols: Seq<S>,
    er: spec_fn(int, int) -> real,
    ec: spec_fn(int, int) -> real,
    p: spec_fn(int, int) -> real,
    w: nat,
    h: nat,
)
    requires
        w > 0,
        h > 0,
        serves(val, rows, er, w),
        serves(val, cols, ec, h),
    ensures
        spread(p, w, h) == (w as real * h as real) * others(
            |x: int, y: int| coefficient(p, er, ec, w, h, x, y),
            w,
            h,
        ),
{
    let (wi, hi) = (w as int, h as int);
    let q = |x: int, y: int| coefficient(p, er, ec, w, h, x, y);
    // The energy: along the columns, then along the rows.
    let half = |x: int, j: int| crate::sums::total(|i: int| p(i, j) * er(x, i), w);
    let square = |x: int, j: int| half(x, j) * half(x, j);
    let by_x = |x: int| crate::sums::total(|y: int| q(x, y) * q(x, y), h);
    let halfway = |x: int| crate::sums::total(|j: int| square(x, j), h);
    assert forall|x: int| 0 <= x < w implies #[trigger] by_x(x) == halfway(x) by {
        let s = |j: int| half(x, j);
        let products = |y: int| q(x, y);
        assert forall|y: int| 0 <= y < h implies #[trigger] products(y) == crate::sums::total(
            |j: int| s(j) * ec(y, j),
            h,
        ) by {
            crate::sums::lemma_total_equal(
                |j: int| crate::sums::total(|i: int| p(i, j) * er(x, i), w) * ec(y, j),
                |j: int| s(j) * ec(y, j),
                h,
            );
        }
        lemma_products_keep_energy(val, cols, ec, h, s, products);
        crate::sums::lemma_total_equal(
            |y: int| q(x, y) * q(x, y),
            |y: int| products(y) * products(y),
            h,
        );
        crate::sums::lemma_total_equal(|j: int| s(j) * s(j), |j: int| square(x, j), h);
    }
    crate::sums::lemma_total_equal(by_x, halfway, w);
    crate::sums::lemma_total_swap(square, w, h);
    let by_j = |j: int| crate::sums::total(|x: int| square(x, j), w);
    let done = |j: int| crate::sums::total(|i: int| p(i, j) * p(i, j), w);
    assert forall|j: int| 0 <= j < h implies #[trigger] by_j(j) == done(j) by {
        let s = |i: int| p(i, j);
        let products = |x: int| half(x, j);
        assert forall|x: int| 0 <= x < w implies #[trigger] products(x) == crate::sums::total(
            |i: int| s(i) * er(x, i),
            w,
        ) by {
            crate::sums::lemma_total_equal(
                |i: int| p(i, j) * er(x, i),
                |i: int| s(i) * er(x, i),
                w,
            );
        }
        lemma_products_keep_energy(val, rows, er, w, s, products);
        crate::sums::lemma_total_equal(
            |x: int| square(x, j),
            |x: int| products(x) * products(x),
            w,
        );
        crate::sums::lemma_total_equal(|i: int| s(i) * s(i), |i: int| p(i, j) * p(i, j), w);
    }
    crate::sums::lemma_total_equal(by_j, done, h);
    // The first coefficient.
    let (r0, c0) = (val(rows[0]), val(cols[0]));
    let line = |j: int| crate::sums::total(|i: int| p(i, j), w);
    let first = |j: int| crate::sums::total(|i: int| p(i, j) * er(0, i), w) * ec(0, j);
    let scaled = |j: int| line(j) * (r0 * c0);
    assert forall|j: int| 0 <= j < h implies #[trigger] first(j) == scaled(j) by {
        let one = |i: int| p(i, j);
        crate::sums::lemma_total_scale(one, w, r0);
        let there = |i: int| p(i, j) * er(0, i);
        let flat = |i: int| one(i) * r0;
        assert forall|i: int| 0 <= i < w implies #[trigger] there(i) == flat(i) by {
            assert(crate::plane_laws::entry(val, rows, wi, 0, i) == er(0, i));
        }
        crate::sums::lemma_total_equal(there, flat, w);
        crate::sums::lemma_total_equal(|i: int| p(i, j), one, w);
        assert(crate::plane_laws::entry(val, cols, hi, 0, j) == ec(0, j));
        let l = line(j);
        assert(l * r0 * c0 == l * (r0 * c0)) by (nonlinear_arith);
    }
    crate::sums::lemma_total_equal(first, scaled, h);
    crate::sums::lemma_total_scale(line, h, r0 * c0);
    let s = plane_sum(p, w, h);
    assert(s * r0 * c0 == s * (r0 * c0)) by (nonlinear_arith);
    lemma_spread(p, q, w, h, r0, c0);
}

/// A coefficient is kept as it is, or set to zero.
pub(crate) proof fn lemma_kept_or_zero<M: PlaneMath>(
    m: &M,
    val: spec_fn(M::Sample) -> real,
    pixels: Seq<M::Sample>,
    w: nat,
    h: nat,
    rows: Seq<M::Sample>,
    cols: Seq<M::Sample>,
    er: spec_fn(int, int) -> real,
    ec: spec_fn(int, int) -> real,
    t: M::Threshold,
    a: Seq<M::Sample>,
    b: Seq<M::Sample>,
    x: int,
    y: int,
)
    requires
        crate::plane_laws::exact(m, val),
        serves(val, rows, er, w),
        serves(val, cols, ec, h),
        crate::cpu::row_pass(m, pixels, w as int, h as int, rows, false, a),
        crate::cpu::column_pass(m, a, w as int, h as int, cols, Some(t), b),
        0 <= x < w,
        0 <= y < h,
    ensures
        ({
            let got = crate::plane_laws::entry(val, b, w as int, y, x);
            let full = coefficient(numbers(val, pixels, w), er, ec, w, h, x, y);
            &&& got == full || got == 0 as real
            &&& crate::plane_laws::kept(m, t, w as int, h as int, x, y) ==> got == full
            &&& crate::plane_laws::dropped(m, t, w as int, h as int, x, y) ==> got == 0 as real
        }),
{
    let (wi, hi) = (w as int, h as int);
    let out = b[y * wi + x];
    assert(crate::cpu::column_cell(m, a, wi, hi, cols, Some(t), x, y, out));
    let sum = choose|sum: M::Sample|
        {
            &&& #[trigger] crate::cpu::dots(
                m,
                crate::cpu::column_of(a, wi, hi, x),
                crate::cpu::row_of(cols, hi, y),
                sum,
            )
            &&& exists|beyond: bool|
                {
                    &&& #[trigger] call_ensures(
                        M::beyond,
                        (
                            m,
                            t,
                            x as usize,
                            crate::cpu::rank_denominator(wi) as usize,
                            y as usize,
                            crate::cpu::rank_denominator(hi) as usize,
                        ),
                        beyond,
                    )
                    &&& if beyond {
                        call_ensures(M::zero, (m,), out)
                    } else {
                        out == sum
                    }
                }
        };
    assert(crate::cpu::column_cell(m, a, wi, hi, cols, None, x, y, sum));
    crate::plane_laws::lemma_column_cell(m, val, a, w, h, cols, None, x, y, sum);
    let p = numbers(val, pixels, w);
    let there = |j: int|
        crate::plane_laws::entry(val, a, wi, j, x) * crate::plane_laws::entry(val, cols, hi, y, j);
    let full = |j: int| crate::sums::total(|i: int| p(i, j) * er(x, i), w) * ec(y, j);
    assert forall|j: int| 0 <= j < h implies #[trigger] there(j) == full(j) by {
        assert(crate::cpu::row_cell(m, pixels, wi, rows, false, x, j, a[j * wi + x]));
        crate::plane_laws::lemma_row_cell(m, val, pixels, w, rows, false, x, j, a[j * wi + x]);
        let one = |i: int|
            crate::plane_laws::entry(val, pixels, wi, j, i) * crate::plane_laws::entry(
                val,
                rows,
                wi,
                x,
                i,
            );
        let two = |i: int| p(i, j) * er(x, i);
        assert forall|i: int| 0 <= i < w implies #[trigger] one(i) == two(i) by {
            assert(crate::plane_laws::entry(val, rows, wi, x, i) == er(x, i));
        }
        crate::sums::lemma_total_equal(one, two, w);
        assert(crate::plane_laws::entry(val, cols, hi, y, j) == ec(y, j));
    }
    crate::sums::lemma_total_equal(there, full, h);
}

/// `f` is the plane that the transform rebuilds, before it is held to the range
/// of a pixel and gives `out`.
pub open spec fn before_held<M: PlaneMath>(
    m: &M,
    val: spec_fn(M::Sample) -> real,
    pixels: Seq<M::Sample>,
    w: nat,
    h: nat,
    cutoff: M::Cutoff,
    out: Seq<M::Sample>,
    f: spec_fn(int, int) -> real,
) -> bool {
    exists|
        rows: Seq<M::Sample>,
        cols: Seq<M::Sample>,
        t: M::Threshold,
        a: Seq<M::Sample>,
        b: Seq<M::Sample>,
        c: Seq<M::Sample>,
    |
        {
            &&& #[trigger] crate::cpu::plane_steps(
                m,
                pixels,
                w as int,
                h as int,
                cutoff,
                rows,
                cols,
                t,
                a,
                b,
                c,
                out,
            )
            &&& f == rebuilt_plane(val, rows, c, w)
        }
}

/// What comes of the steps of a plane: the picture before and after it is held to
/// the range of a pixel.
proof fn lemma_steps<M: PlaneMath>(
    m: &M,
    val: spec_fn(M::Sample) -> real,
    pixels: Seq<M::Sample>,
    w: nat,
    h: nat,
    cutoff: M::Cutoff,
    rows: Seq<M::Sample>,
    cols: Seq<M::Sample>,
    er: spec_fn(int, int) -> real,
    ec: spec_fn(int, int) -> real,
    t: M::Threshold,
    a: Seq<M::Sample>,
    b: Seq<M::Sample>,
    c: Seq<M::Sample>,
    out: Seq<M::Sample>,
)
    requires
        crate::plane_laws::exact(m, val),
        w > 0,
        h > 0,
        serves(val, rows, er, w),
        serves(val, cols, ec, h),
        crate::cpu::plane_steps(
            m,
            pixels,
            w as int,
            h as int,
            cutoff,
            rows,
            cols,
            t,
            a,
            b,
            c,
            out,
        ),
    ensures
        ({
            let f = rebuilt_plane(val, rows, c, w);
            &&& before_held(m, val, pixels, w, h, cutoff, out, f)
            &&& held_from(val, out, w, h, f)
            &&& spread(f, w, h) == (w as real * h as real) * others(numbers(val, b, w), w, h)
            &&& spread(numbers(val, out, w), w, h) <= spread(f, w, h)
            &&& plane_sum(f, w, h) * er(0, 0) * ec(0, 0) == numbers(val, b, w)(0, 0)
        }),
{
    let (wi, hi) = (w as int, h as int);
    let f = rebuilt_plane(val, rows, c, w);
    let q = numbers(val, b, w);
    lemma_plane_rebuilt(m, val, w, h, rows, cols, b, c, out);
    assert(0 * wi + 0 == 0 && 0 * hi + 0 == 0);
    assert(crate::plane_laws::entry(val, rows, wi, 0, 0) == er(0, 0));
    assert(crate::plane_laws::entry(val, cols, hi, 0, 0) == ec(0, 0));
    let (there, back) = (
        |i: int|
            crate::sums::total(
                |k: int|
                    crate::plane_laws::entry(val, b, wi, k, i) * crate::plane_laws::entry(
                        val,
                        b,
                        wi,
                        k,
                        i,
                    ),
                h,
            ),
        |x: int| crate::sums::total(|y: int| q(x, y) * q(x, y), h),
    );
    assert forall|i: int| 0 <= i < w implies #[trigger] there(i) == back(i) by {
        crate::sums::lemma_total_equal(
            |k: int|
                crate::plane_laws::entry(val, b, wi, k, i) * crate::plane_laws::entry(
                    val,
                    b,
                    wi,
                    k,
                    i,
                ),
            |y: int| q(i, y) * q(i, y),
            h,
        );
    }
    crate::sums::lemma_total_equal(there, back, w);
    lemma_spread(f, q, w, h, val(rows[0]), val(cols[0]));
    let g = numbers(val, out, w);
    assert forall|x: int, y: int| 0 <= x < w && 0 <= y < h implies #[trigger] g(x, y)
        == crate::plane_laws::held(f(x, y)) by {
        assert(val(out[y * w + x]) == crate::plane_laws::held(f(x, y)));
    }
    lemma_held_varies_no_more(f, g, w, h);
}

/// Every cell of the plane is within the range of a pixel.
pub open spec fn in_range(f: spec_fn(int, int) -> real, w: nat, h: nat) -> bool {
    forall|x: int, y: int|
        0 <= x < w && 0 <= y < h ==> 0 as real <= #[trigger] f(x, y) <= 255 as real
}

/// Planes with the same cells vary alike.
proof fn lemma_same_spread(
    f: spec_fn(int, int) -> real,
    g: spec_fn(int, int) -> real,
    w: nat,
    h: nat,
)
    requires
        forall|x: int, y: int| 0 <= x < w && 0 <= y < h ==> #[trigger] f(x, y) == g(x, y),
    ensures
        spread(f, w, h) == spread(g, w, h),
{
    let (sum_f, sum_g) = (
        |y: int| crate::sums::total(|x: int| f(x, y), w),
        |y: int| crate::sums::total(|x: int| g(x, y), w),
    );
    let (square_f, square_g) = (
        |y: int| crate::sums::total(|x: int| f(x, y) * f(x, y), w),
        |y: int| crate::sums::total(|x: int| g(x, y) * g(x, y), w),
    );
    assert forall|y: int| 0 <= y < h implies #[trigger] sum_f(y) == sum_g(y) by {
        crate::sums::lemma_total_equal(|x: int| f(x, y), |x: int| g(x, y), w);
    }
    assert forall|y: int| 0 <= y < h implies #[trigger] square_f(y) == square_g(y) by {
        let (u, v) = (|x: int| f(x, y) * f(x, y), |x: int| g(x, y) * g(x, y));
        assert forall|x: int| 0 <= x < w implies #[trigger] u(x) == v(x) by {
            assert(f(x, y) == g(x, y));
        }
        crate::sums::lemma_total_equal(u, v, w);
    }
    crate::sums::lemma_total_equal(sum_f, sum_g, h);
    crate::sums::lemma_total_equal(square_f, square_g, h);
}

/// A positive factor keeps the order.
proof fn lemma_scaled(by: real, a: real, b: real, wr: real, hr: real)
    requires
        by == wr * hr,
        wr > 0 as real,
        hr > 0 as real,
        a <= b,
    ensures
        by * a <= by * b,
        a < b ==> by * a < by * b,
{
    assert(by > 0 as real) by (nonlinear_arith)
        requires
            by == wr * hr,
            wr > 0 as real,
            hr > 0 as real,
    ;
    let d = b - a;
    assert(by * b - by * a == by * d) by (nonlinear_arith)
        requires
            d == b - a,
    ;
    assert(by * d >= 0 as real && (d > 0 as real ==> by * d > 0 as real)) by (nonlinear_arith)
        requires
            by > 0 as real,
            d >= 0 as real,
    ;
}

/// A basis of cosines serves.
pub(crate) proof fn lemma_cosine_basis<S>(
    val: spec_fn(S) -> real,
    c: spec_fn(int) -> real,
    flat: real,
    wave: real,
    b: Seq<S>,
    n: nat,
)
    requires
        crate::cosine_laws::is_cosine_basis(val, c, flat, wave, b, n),
        b.len() == n * n,
    ensures
        serves(val, b, cosines(c, flat, wave), n),
{
    crate::cosine_laws::law_basis_columns_are_orthonormal(val, c, flat, wave, b, n);
    assert forall|k: int, j: int|
        0 <= k < n && 0 <= j < n implies #[trigger] crate::cosine_laws::row_product(
        val,
        b,
        n,
        k,
        j,
    ) == (if k == j {
        1 as real
    } else {
        0 as real
    }) by {
        crate::cosine_laws::law_basis_rows_are_orthonormal(val, c, flat, wave, b, n, k, j);
    }
}

/// The cutoff drops the coefficient of cell `(x, y)`.
pub open spec fn cuts<M: PlaneMath>(
    m: &M,
    cutoff: M::Cutoff,
    w: nat,
    h: nat,
    x: int,
    y: int,
) -> bool {
    forall|t: M::Threshold| #[trigger]
        call_ensures(M::threshold, (m, cutoff), t) ==> crate::plane_laws::dropped(
            m,
            t,
            w as int,
            h as int,
            x,
            y,
        )
}

/// The cutoff keeps the coefficient of cell `(x, y)`.
pub open spec fn passes<M: PlaneMath>(
    m: &M,
    cutoff: M::Cutoff,
    w: nat,
    h: nat,
    x: int,
    y: int,
) -> bool {
    forall|t: M::Threshold| #[trigger]
        call_ensures(M::threshold, (m, cutoff), t) ==> crate::plane_laws::kept(
            m,
            t,
            w as int,
            h as int,
            x,
            y,
        )
}

/// Under this arithmetic, the basis of length `n` is that of the cosines.
pub open spec fn has_cosines<M: PlaneMath>(
    m: &M,
    val: spec_fn(M::Sample) -> real,
    c: spec_fn(int) -> real,
    flat: real,
    wave: real,
    n: nat,
) -> bool {
    forall|b: Seq<M::Sample>| #[trigger]
        crate::dct_math::is_basis(m, n as int, b) ==> crate::cosine_laws::is_cosine_basis(
            val,
            c,
            flat,
            wave,
            b,
            n,
        )
}

/// A lower cutoff leaves less variation: in exact arithmetic with the cosine
/// basis, of two cutoffs that both keep the first coefficient, the one that
/// drops what the other drops, and perhaps more, rebuilds a plane with the same
/// average and no larger variance; a strictly smaller one if some coefficient
/// that only it drops is not zero. Holding a plane to the range of a pixel adds no
/// variance, so the same holds of the pixels that come out wherever the higher
/// cutoff rebuilds a plane within that range.
pub proof fn law_lower_cutoff_reduces_variance<M: PlaneMath>(
    m: &M,
    val: spec_fn(M::Sample) -> real,
    cw: spec_fn(int) -> real,
    ch: spec_fn(int) -> real,
    flat_w: real,
    wave_w: real,
    flat_h: real,
    wave_h: real,
    pixels: Seq<M::Sample>,
    w: nat,
    h: nat,
    low: M::Cutoff,
    high: M::Cutoff,
    out_low: Seq<M::Sample>,
    out_high: Seq<M::Sample>,
)
    requires
        crate::plane_laws::exact(m, val),
        w > 0,
        h > 0,
        has_cosines(m, val, cw, flat_w, wave_w, w),
        has_cosines(m, val, ch, flat_h, wave_h, h),
        forall|t: M::Threshold, u: M::Threshold, x: int, y: int|
            call_ensures(M::threshold, (m, low), t) && call_ensures(M::threshold, (m, high), u) && 0
                <= x < w && 0 <= y < h ==> #[trigger] drops_no_less(
                m,
                t,
                u,
                w as int,
                h as int,
                x,
                y,
            ),
        passes(m, low, w, h, 0, 0),
        passes(m, high, w, h, 0, 0),
        pixels.len() == w * h,
        crate::cpu::plane_done(m, pixels, w as int, h as int, low, out_low),
        crate::cpu::plane_done(m, pixels, w as int, h as int, high, out_high),
    ensures
        exists|f: spec_fn(int, int) -> real, g: spec_fn(int, int) -> real|
            {
                let (pixels_low, pixels_high) = (
                    numbers(val, out_low, w),
                    numbers(val, out_high, w),
                );
                let only_low = exists|x: int, y: int|
                    {
                        &&& 0 <= x < w && 0 <= y < h
                        &&& #[trigger] cuts(m, low, w, h, x, y)
                        &&& passes(m, high, w, h, x, y)
                        &&& coefficient(
                            numbers(val, pixels, w),
                            cosines(cw, flat_w, wave_w),
                            cosines(ch, flat_h, wave_h),
                            w,
                            h,
                            x,
                            y,
                        ) != 0 as real
                    };
                &&& #[trigger] before_held(m, val, pixels, w, h, low, out_low, f)
                &&& #[trigger] before_held(m, val, pixels, w, h, high, out_high, g)
                &&& held_from(val, out_low, w, h, f)
                &&& held_from(val, out_high, w, h, g)
                &&& plane_sum(f, w, h) == plane_sum(g, w, h)
                &&& spread(f, w, h) <= spread(g, w, h)
                &&& only_low ==> spread(f, w, h) < spread(g, w, h)
                &&& spread(pixels_low, w, h) <= spread(f, w, h)
                &&& spread(pixels_high, w, h) <= spread(g, w, h)
                &&& in_range(g, w, h) ==> {
                    &&& spread(pixels_low, w, h) <= spread(pixels_high, w, h)
                    &&& only_low ==> spread(pixels_low, w, h) < spread(pixels_high, w, h)
                }
            },
{
    let (wi, hi) = (w as int, h as int);
    let (er, ec) = (cosines(cw, flat_w, wave_w), cosines(ch, flat_h, wave_h));
    let (rows_1, cols_1, t_1, a_1, b_1, c_1) = choose|
        rows: Seq<M::Sample>,
        cols: Seq<M::Sample>,
        t: M::Threshold,
        a: Seq<M::Sample>,
        b: Seq<M::Sample>,
        c: Seq<M::Sample>,
    |
        #[trigger] crate::cpu::plane_steps(
            m,
            pixels,
            wi,
            hi,
            low,
            rows,
            cols,
            t,
            a,
            b,
            c,
            out_low,
        );
    let (rows_2, cols_2, t_2, a_2, b_2, c_2) = choose|
        rows: Seq<M::Sample>,
        cols: Seq<M::Sample>,
        t: M::Threshold,
        a: Seq<M::Sample>,
        b: Seq<M::Sample>,
        c: Seq<M::Sample>,
    |
        #[trigger] crate::cpu::plane_steps(
            m,
            pixels,
            wi,
            hi,
            high,
            rows,
            cols,
            t,
            a,
            b,
            c,
            out_high,
        );
    lemma_cosine_basis(val, cw, flat_w, wave_w, rows_1, w);
    lemma_cosine_basis(val, ch, flat_h, wave_h, cols_1, h);
    lemma_cosine_basis(val, cw, flat_w, wave_w, rows_2, w);
    lemma_cosine_basis(val, ch, flat_h, wave_h, cols_2, h);
    lemma_steps(
        m, val, pixels, w, h, low, rows_1, cols_1, er, ec, t_1, a_1, b_1, c_1, out_low,
    );
    lemma_steps(
        m, val, pixels, w, h, high, rows_2, cols_2, er, ec, t_2, a_2, b_2, c_2, out_high,
    );
    let f = rebuilt_plane(val, rows_1, c_1, w);
    let g = rebuilt_plane(val, rows_2, c_2, w);
    let (q_1, q_2) = (numbers(val, b_1, w), numbers(val, b_2, w));
    // The same first coefficient, so the same average.
    lemma_kept_or_zero(m, val, pixels, w, h, rows_1, cols_1, er, ec, t_1, a_1, b_1, 0, 0);
    lemma_kept_or_zero(m, val, pixels, w, h, rows_2, cols_2, er, ec, t_2, a_2, b_2, 0, 0);
    let (r0, c0) = (er(0, 0), ec(0, 0));
    let (p, q) = (plane_sum(f, w, h), plane_sum(g, w, h));
    let (wr, hr) = (w as real, h as real);
    assert(0 * wi + 0 == 0 && 0 * hi + 0 == 0);
    assert(crate::plane_laws::entry(val, rows_1, wi, 0, 0) == r0);
    assert(crate::plane_laws::entry(val, cols_1, hi, 0, 0) == c0);
    assert(p == q) by (nonlinear_arith)
        requires
            p * r0 * c0 == q * r0 * c0,
            r0 * r0 * wr == 1 as real,
            c0 * c0 * hr == 1 as real,
    {
        assert(p * ((r0 * r0 * wr) * (c0 * c0 * hr)) == (p * r0 * c0) * (r0 * wr * c0 * hr));
        assert(q * ((r0 * r0 * wr) * (c0 * c0 * hr)) == (q * r0 * c0) * (r0 * wr * c0 * hr));
    }
    // Coefficient by coefficient.
    assert forall|x: int, y: int| 0 <= x < w && 0 <= y < h implies #[trigger] q_1(x, y) == q_2(x, y)
        || q_1(x, y) == 0 as real by {
        assert(drops_no_less(m, t_1, t_2, wi, hi, x, y));
        lemma_kept_or_zero(m, val, pixels, w, h, rows_1, cols_1, er, ec, t_1, a_1, b_1, x, y);
        lemma_kept_or_zero(m, val, pixels, w, h, rows_2, cols_2, er, ec, t_2, a_2, b_2, x, y);
    }
    lemma_others_at_most(q_1, q_2, w, h);
    let (o_1, o_2) = (others(q_1, w, h), others(q_2, w, h));
    lemma_scaled(wr * hr, o_1, o_2, wr, hr);
    let only_low = exists|x: int, y: int|
        {
            &&& 0 <= x < w && 0 <= y < h
            &&& #[trigger] cuts(m, low, w, h, x, y)
            &&& passes(m, high, w, h, x, y)
            &&& coefficient(numbers(val, pixels, w), er, ec, w, h, x, y) != 0 as real
        };
    if only_low {
        let (x, y) = choose|x: int, y: int|
            {
                &&& 0 <= x < w && 0 <= y < h
                &&& #[trigger] cuts(m, low, w, h, x, y)
                &&& passes(m, high, w, h, x, y)
                &&& coefficient(numbers(val, pixels, w), er, ec, w, h, x, y) != 0 as real
            };
        lemma_kept_or_zero(m, val, pixels, w, h, rows_1, cols_1, er, ec, t_1, a_1, b_1, x, y);
        lemma_kept_or_zero(m, val, pixels, w, h, rows_2, cols_2, er, ec, t_2, a_2, b_2, x, y);
        assert(q_1(x, y) == 0 as real && q_2(x, y) != 0 as real);
        assert(spread(f, w, h) < spread(g, w, h));
    }
    if in_range(g, w, h) {
        let high_numbers = numbers(val, out_high, w);
        assert forall|x: int, y: int| 0 <= x < w && 0 <= y < h implies #[trigger] g(x, y)
            == high_numbers(x, y) by {
            assert(val(out_high[y * w + x]) == crate::plane_laws::held(g(x, y)));
        }
        lemma_same_spread(g, high_numbers, w, h);
    }
    assert(before_held(m, val, pixels, w, h, low, out_low, f));
    assert(before_held(m, val, pixels, w, h, high, out_high, g));
}

/// No cutoff adds variation: in exact arithmetic with the cosine basis, the
/// pixels that come out vary no more than the plane that went in, whatever the
/// cutoff; and strictly less if some coefficient that it drops, other than the
/// first, is not zero.
pub proof fn law_no_cutoff_adds_variance<M: PlaneMath>(
    m: &M,
    val: spec_fn(M::Sample) -> real,
    cw: spec_fn(int) -> real,
    ch: spec_fn(int) -> real,
    flat_w: real,
    wave_w: real,
    flat_h: real,
    wave_h: real,
    pixels: Seq<M::Sample>,
    w: nat,
    h: nat,
    cutoff: M::Cutoff,
    out: Seq<M::Sample>,
)
    requires
        crate::plane_laws::exact(m, val),
        w > 0,
        h > 0,
        has_cosines(m, val, cw, flat_w, wave_w, w),
        has_cosines(m, val, ch, flat_h, wave_h, h),
        pixels.len() == w * h,
        crate::cpu::plane_done(m, pixels, w as int, h as int, cutoff, out),
    ensures
        spread(numbers(val, out, w), w, h) <= spread(numbers(val, pixels, w), w, h),
        forall|x: int, y: int|
            {
                &&& 0 <= x < w && 0 <= y < h && !(x == 0 && y == 0)
                &&& #[trigger] cuts(m, cutoff, w, h, x, y)
                &&& coefficient(
                    numbers(val, pixels, w),
                    cosines(cw, flat_w, wave_w),
                    cosines(ch, flat_h, wave_h),
                    w,
                    h,
                    x,
                    y,
                ) != 0 as real
            } ==> spread(numbers(val, out, w), w, h) < spread(numbers(val, pixels, w), w, h),
{
    let (wi, hi) = (w as int, h as int);
    let (er, ec) = (cosines(cw, flat_w, wave_w), cosines(ch, flat_h, wave_h));
    let (rows, cols, t, a, b, c) = choose|
        rows: Seq<M::Sample>,
        cols: Seq<M::Sample>,
        t: M::Threshold,
        a: Seq<M::Sample>,
        b: Seq<M::Sample>,
        c: Seq<M::Sample>,
    |
        #[trigger] crate::cpu::plane_steps(m, pixels, wi, hi, cutoff, rows, cols, t, a, b, c, out);
    lemma_cosine_basis(val, cw, flat_w, wave_w, rows, w);
    lemma_cosine_basis(val, ch, flat_h, wave_h, cols, h);
    lemma_steps(m, val, pixels, w, h, cutoff, rows, cols, er, ec, t, a, b, c, out);
    let p = numbers(val, pixels, w);
    lemma_plane_spread(val, rows, cols, er, ec, p, w, h);
    let (got, full) = (
        numbers(val, b, w),
        |x: int, y: int| coefficient(p, er, ec, w, h, x, y),
    );
    assert forall|x: int, y: int| 0 <= x < w && 0 <= y < h implies #[trigger] got(x, y) == full(
        x,
        y,
    ) || got(x, y) == 0 as real by {
        lemma_kept_or_zero(m, val, pixels, w, h, rows, cols, er, ec, t, a, b, x, y);
    }
    lemma_others_at_most(got, full, w, h);
    let (wr, hr) = (w as real, h as real);
    lemma_scaled(wr * hr, others(got, w, h), others(full, w, h), wr, hr);
    assert forall|x: int, y: int|
        {
            &&& 0 <= x < w && 0 <= y < h && !(x == 0 && y == 0)
            &&& #[trigger] cuts(m, cutoff, w, h, x, y)
            &&& coefficient(p, er, ec, w, h, x, y) != 0 as real
        } implies spread(numbers(val, out, w), w, h) < spread(p, w, h) by {
        lemma_kept_or_zero(m, val, pixels, w, h, rows, cols, er, ec, t, a, b, x, y);
        assert(got(x, y) == 0 as real && full(x, y) != 0 as real);
    }
}

} // verus!
