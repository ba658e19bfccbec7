//! The two ways to transform a plane agree, where the arithmetic is exact.
use crate::dct_math::PlaneMath;
use crate::fft_plane::{AxisTransform, Direction};
use vstd::prelude::*;

verus! {

/// Element `k` of sequence `y` of a batch after the transform, where `e(n, k, i)`
/// is basis function `k` of length `n` at position `i`.
pub open spec fn batch_sum<S>(
    val: spec_fn(S) -> real,
    e: spec_fn(int, int, int) -> real,
    direction: Direction,
    x: Seq<S>,
    n: nat,
    y: int,
    k: int,
) -> real {
    match direction {
        Direction::Forward => crate::sums::total(
            |i: int| crate::plane_laws::entry(val, x, n as int, y, i) * e(n as int, k, i),
            n,
        ),
        Direction::Inverse => crate::sums::total(
            |i: int| crate::plane_laws::entry(val, x, n as int, y, i) * e(n as int, i, k),
            n,
        ),
    }
}

/// `v` is the batch `x` after the transform.
pub open spec fn batch_exact<S>(
    val: spec_fn(S) -> real,
    e: spec_fn(int, int, int) -> real,
    direction: Direction,
    x: Seq<S>,
    n: nat,
    batch: nat,
    v: Seq<S>,
) -> bool {
    forall|y: int, k: int|
        0 <= y < batch && 0 <= k < n ==> #[trigger] crate::plane_laws::entry(val, v, n as int, y, k)
            == batch_sum(val, e, direction, x, n, y, k)
}

/// What the device returns for batches of sequences of length `n` is exact.
pub open spec fn device_exact<D: AxisTransform>(
    device: &D,
    val: spec_fn(D::Sample) -> real,
    e: spec_fn(int, int, int) -> real,
    n: usize,
) -> bool {
    forall|
        direction: Direction,
        x: Seq<D::Sample>,
        factors: Option<Seq<usize>>,
        batch: usize,
        v: Vec<D::Sample>,
    |
        #[trigger] crate::fft_plane::returned(device, direction, x, n, factors, batch, Ok(v))
            && crate::fft_plane::runnable(n as nat, factors) && x.len() == n * batch && v@.len()
            == x.len() ==> batch_exact(val, e, direction, x, n as nat, batch as nat, v@)
}

/// The basis of length `n` has the numbers `e`.
pub open spec fn basis_exact<M: PlaneMath>(
    m: &M,
    val: spec_fn(M::Sample) -> real,
    e: spec_fn(int, int, int) -> real,
    n: int,
) -> bool {
    forall|b: Seq<M::Sample>, k: int, i: int|
        #![trigger crate::dct_math::is_basis(m, n, b), crate::plane_laws::entry(val, b, n, k, i)]
        crate::dct_math::is_basis(m, n, b) && 0 <= k < n && 0 <= i < n ==> crate::plane_laws::entry(
            val,
            b,
            n,
            k,
            i,
        ) == e(n, k, i)
}

/// Both thresholds keep cell `(x, y)`, or both drop it.
pub open spec fn same_cut<M: PlaneMath>(
    m: &M,
    t: M::Threshold,
    u: M::Threshold,
    w: int,
    h: int,
    x: int,
    y: int,
) -> bool {
    ||| crate::plane_laws::kept(m, t, w, h, x, y) && crate::plane_laws::kept(m, u, w, h, x, y)
    ||| crate::plane_laws::dropped(m, t, w, h, x, y) && crate::plane_laws::dropped(m, u, w, h, x, y)
}

/// Two planes hold the same numbers.
pub open spec fn same_numbers<S>(
    val: spec_fn(S) -> real,
    a: Seq<S>,
    b: Seq<S>,
    w: int,
    h: int,
) -> bool {
    forall|x: int, y: int|
        0 <= x < w && 0 <= y < h ==> #[trigger] crate::plane_laws::entry(val, a, w, y, x)
            == crate::plane_laws::entry(val, b, w, y, x)
}

/// A batch that came to something is exact.
proof fn lemma_step<D: AxisTransform>(
    device: &D,
    val: spec_fn(D::Sample) -> real,
    e: spec_fn(int, int, int) -> real,
    direction: Direction,
    x: Seq<D::Sample>,
    n: usize,
    factors: Option<Seq<usize>>,
    batch: usize,
    v: Seq<D::Sample>,
)
    requires
        device_exact(device, val, e, n),
        crate::fft_plane::runnable(n as nat, factors),
        x.len() == n * batch,
        crate::fft_plane::axis_step(device, direction, x, n, factors, batch, Ok(v)),
    ensures
        v.len() == x.len(),
        batch_exact(val, e, direction, x, n as nat, batch as nat, v),
{
    let given = choose|given: Result<Vec<D::Sample>, crate::dct_backend::TransformError>|
        #[trigger] crate::fft_plane::returned(device, direction, x, n, factors, batch, given)
            && Ok::<Seq<D::Sample>, crate::dct_backend::TransformError>(v)
            == crate::fft_plane::taken(given, x.len());
    assert(given is Ok);
    let r = given->Ok_0;
    assert(given == Ok::<Vec<D::Sample>, crate::dct_backend::TransformError>(r));
    assert(r@ == v);
}

/// Cell `(row, col)` of the transpose of `h` rows of `w` elements.
proof fn lemma_turned_cell<S>(
    val: spec_fn(S) -> real,
    a: Seq<S>,
    w: int,
    h: int,
    row: int,
    col: int,
)
    requires
        0 <= row < w,
        0 <= col < h,
    ensures
        crate::plane_laws::entry(val, crate::dct_math::turned_over(a, w, h), h, row, col)
            == crate::plane_laws::entry(val, a, w, col, row),
{
    crate::arith::lemma_cell_bound(row, col, w, h);
    crate::arith::lemma_div_mod_of(row * h + col, h, row, col);
}

/// The row transforms agree.
proof fn lemma_rows_agree<M: PlaneMath>(
    m: &M,
    val: spec_fn(M::Sample) -> real,
    e: spec_fn(int, int, int) -> real,
    pixels: Seq<M::Sample>,
    w: nat,
    h: nat,
    rows: Seq<M::Sample>,
    a: Seq<M::Sample>,
    a_2: Seq<M::Sample>,
)
    requires
        crate::plane_laws::exact(m, val),
        basis_exact(m, val, e, w as int),
        crate::dct_math::is_basis(m, w as int, rows),
        batch_exact(val, e, Direction::Forward, pixels, w, h, a),
        crate::cpu::row_pass(m, pixels, w as int, h as int, rows, false, a_2),
    ensures
        same_numbers(val, a, a_2, w as int, h as int),
{
    let wi = w as int;
    assert forall|x: int, y: int| 0 <= x < w && 0 <= y < h implies
        #[trigger] crate::plane_laws::entry(val, a, wi, y, x) == crate::plane_laws::entry(
        val,
        a_2,
        wi,
        y,
        x,
    ) by {
        assert(crate::cpu::row_cell(m, pixels, wi, rows, false, x, y, a_2[y * wi + x]));
        crate::plane_laws::lemma_row_cell(m, val, pixels, w, rows, false, x, y, a_2[y * wi + x]);
        let one = |i: int| crate::plane_laws::entry(val, pixels, wi, y, i) * e(wi, x, i);
        let two = |i: int|
            crate::plane_laws::entry(val, pixels, wi, y, i) * crate::plane_laws::entry(
                val,
                rows,
                wi,
                x,
                i,
            );
        assert forall|i: int| 0 <= i < w implies #[trigger] one(i) == two(i) by {
            assert(crate::plane_laws::entry(val, rows, wi, x, i) == e(wi, x, i));
        }
        crate::sums::lemma_total_equal(one, two, w);
    }
}

/// The column transforms and cutoffs agree.
proof fn lemma_coefficients_agree<M: PlaneMath>(
    m: &M,
    val: spec_fn(M::Sample) -> real,
    e: spec_fn(int, int, int) -> real,
    w: nat,
    h: nat,
    cols: Seq<M::Sample>,
    t: M::Threshold,
    u: M::Threshold,
    a: Seq<M::Sample>,
    b: Seq<M::Sample>,
    kept: Seq<M::Sample>,
    a_2: Seq<M::Sample>,
    b_2: Seq<M::Sample>,
)
    requires
        crate::plane_laws::exact(m, val),
        basis_exact(m, val, e, h as int),
        crate::dct_math::is_basis(m, h as int, cols),
        same_numbers(val, a, a_2, w as int, h as int),
        batch_exact(
            val,
            e,
            Direction::Forward,
            crate::dct_math::turned_over(a, w as int, h as int),
            h,
            w,
            b,
        ),
        crate::fft_plane::cut_plane(
            m,
            t,
            w as int,
            h as int,
            crate::dct_math::turned_over(b, h as int, w as int),
            kept,
        ),
        crate::cpu::column_pass(m, a_2, w as int, h as int, cols, Some(u), b_2),
        forall|x: int, y: int|
            0 <= x < w && 0 <= y < h ==> #[trigger] same_cut(m, t, u, w as int, h as int, x, y),
    ensures
        same_numbers(val, kept, b_2, w as int, h as int),
{
    let (wi, hi) = (w as int, h as int);
    let turned = crate::dct_math::turned_over(a, wi, hi);
    let coefficients = crate::dct_math::turned_over(b, hi, wi);
    assert forall|x: int, y: int| 0 <= x < w && 0 <= y < h implies
        #[trigger] crate::plane_laws::entry(val, kept, wi, y, x) == crate::plane_laws::entry(
        val,
        b_2,
        wi,
        y,
        x,
    ) by {
        assert(same_cut(m, t, u, wi, hi, x, y));
        let at = y * wi + x;
        assert(crate::cpu::cut_cell(m, t, wi, hi, x, y, coefficients[at], kept[at]));
        assert(crate::cpu::column_cell(m, a_2, wi, hi, cols, Some(u), x, y, b_2[at]));
        if crate::plane_laws::kept(m, t, wi, hi, x, y) && crate::plane_laws::kept(
            m,
            u,
            wi,
            hi,
            x,
            y,
        ) {
            assert(kept[at] == coefficients[at]);
            lemma_turned_cell(val, b, hi, wi, y, x);
            assert(crate::plane_laws::entry(val, b, hi, x, y) == batch_sum(
                val,
                e,
                Direction::Forward,
                turned,
                h,
                x,
                y,
            ));
            crate::plane_laws::lemma_column_cell(m, val, a_2, w, h, cols, Some(u), x, y, b_2[at]);
            let one = |j: int| crate::plane_laws::entry(val, turned, hi, x, j) * e(hi, y, j);
            let two = |j: int|
                crate::plane_laws::entry(val, a_2, wi, j, x) * crate::plane_laws::entry(
                    val,
                    cols,
                    hi,
                    y,
                    j,
                );
            assert forall|j: int| 0 <= j < h implies #[trigger] one(j) == two(j) by {
                lemma_turned_cell(val, a, wi, hi, x, j);
                assert(crate::plane_laws::entry(val, cols, hi, y, j) == e(hi, y, j));
                assert(crate::plane_laws::entry(val, a, wi, j, x) == crate::plane_laws::entry(
                    val,
                    a_2,
                    wi,
                    j,
                    x,
                ));
            }
            crate::sums::lemma_total_equal(one, two, h);
        } else {
            crate::plane_laws::lemma_dropped_cell(m, val, a_2, wi, hi, cols, u, x, y, b_2[at]);
            assert(val(kept[at]) == 0 as real);
        }
    }
}

/// The inverse column transforms agree.
proof fn lemma_columns_back_agree<M: PlaneMath>(
    m: &M,
    val: spec_fn(M::Sample) -> real,
    e: spec_fn(int, int, int) -> real,
    w: nat,
    h: nat,
    cols: Seq<M::Sample>,
    kept: Seq<M::Sample>,
    c: Seq<M::Sample>,
    b_2: Seq<M::Sample>,
    c_2: Seq<M::Sample>,
)
    requires
        crate::plane_laws::exact(m, val),
        basis_exact(m, val, e, h as int),
        crate::dct_math::is_basis(m, h as int, cols),
        same_numbers(val, kept, b_2, w as int, h as int),
        batch_exact(
            val,
            e,
            Direction::Inverse,
            crate::dct_math::turned_over(kept, w as int, h as int),
            h,
            w,
            c,
        ),
        crate::cpu::column_pass(
            m,
            b_2,
            w as int,
            h as int,
            crate::dct_math::transposed(cols, h as int),
            None,
            c_2,
        ),
    ensures
        same_numbers(
            val,
            crate::dct_math::turned_over(c, h as int, w as int),
            c_2,
            w as int,
            h as int,
        ),
{
    let (wi, hi) = (w as int, h as int);
    let turned = crate::dct_math::turned_over(kept, wi, hi);
    let back = crate::dct_math::turned_over(c, hi, wi);
    let cols_t = crate::dct_math::transposed(cols, hi);
    assert forall|x: int, y: int| 0 <= x < w && 0 <= y < h implies
        #[trigger] crate::plane_laws::entry(val, back, wi, y, x) == crate::plane_laws::entry(
        val,
        c_2,
        wi,
        y,
        x,
    ) by {
        lemma_turned_cell(val, c, hi, wi, y, x);
        assert(crate::plane_laws::entry(val, c, hi, x, y) == batch_sum(
            val,
            e,
            Direction::Inverse,
            turned,
            h,
            x,
            y,
        ));
        assert(crate::cpu::column_cell(m, b_2, wi, hi, cols_t, None, x, y, c_2[y * wi + x]));
        crate::plane_laws::lemma_column_cell(
            m,
            val,
            b_2,
            w,
            h,
            cols_t,
            None,
            x,
            y,
            c_2[y * wi + x],
        );
        let one = |j: int| crate::plane_laws::entry(val, turned, hi, x, j) * e(hi, j, y);
        let two = |j: int|
            crate::plane_laws::entry(val, b_2, wi, j, x) * crate::plane_laws::entry(
                val,
                cols_t,
                hi,
                y,
                j,
            );
        assert forall|j: int| 0 <= j < h implies #[trigger] one(j) == two(j) by {
            lemma_turned_cell(val, kept, wi, hi, x, j);
            crate::dct_math::law_transpose_swaps_cells(cols, hi, y, j);
            assert(crate::plane_laws::entry(val, cols, hi, j, y) == e(hi, j, y));
            assert(crate::plane_laws::entry(val, kept, wi, j, x) == crate::plane_laws::entry(
                val,
                b_2,
                wi,
                j,
                x,
            ));
        }
        crate::sums::lemma_total_equal(one, two, h);
    }
}

/// The inverse row transforms agree, and so do the pixels.
proof fn lemma_pixels_agree<M: PlaneMath>(
    m: &M,
    val: spec_fn(M::Sample) -> real,
    e: spec_fn(int, int, int) -> real,
    w: nat,
    h: nat,
    rows: Seq<M::Sample>,
    c: Seq<M::Sample>,
    d: Seq<M::Sample>,
    out: Seq<M::Sample>,
    c_2: Seq<M::Sample>,
    out_2: Seq<M::Sample>,
)
    requires
        crate::plane_laws::exact(m, val),
        basis_exact(m, val, e, w as int),
        crate::dct_math::is_basis(m, w as int, rows),
        same_numbers(val, c, c_2, w as int, h as int),
        d.len() == w * h,
        batch_exact(val, e, Direction::Inverse, c, w, h, d),
        crate::fft_plane::pixels_held(m, d, out),
        crate::cpu::row_pass(
            m,
            c_2,
            w as int,
            h as int,
            crate::dct_math::transposed(rows, w as int),
            true,
            out_2,
        ),
    ensures
        same_numbers(val, out, out_2, w as int, h as int),
{
    let (wi, hi) = (w as int, h as int);
    let rows_t = crate::dct_math::transposed(rows, wi);
    assert forall|x: int, y: int| 0 <= x < w && 0 <= y < h implies
        #[trigger] crate::plane_laws::entry(val, out, wi, y, x) == crate::plane_laws::entry(
        val,
        out_2,
        wi,
        y,
        x,
    ) by {
        crate::arith::lemma_cell_bound(y, x, hi, wi);
        assert(hi * wi == wi * hi) by (nonlinear_arith);
        let at = y * wi + x;
        assert(0 <= at < d.len());
        assert(call_ensures(M::pixel, (m, d[at]), out[at]));
        assert(crate::plane_laws::entry(val, d, wi, y, x) == batch_sum(
            val,
            e,
            Direction::Inverse,
            c,
            w,
            y,
            x,
        ));
        assert(crate::cpu::row_cell(m, c_2, wi, rows_t, true, x, y, out_2[at]));
        crate::plane_laws::lemma_row_cell(m, val, c_2, w, rows_t, true, x, y, out_2[at]);
        let one = |i: int| crate::plane_laws::entry(val, c, wi, y, i) * e(wi, i, x);
        let two = |i: int|
            crate::plane_laws::entry(val, c_2, wi, y, i) * crate::plane_laws::entry(
                val,
                rows_t,
                wi,
                x,
                i,
            );
        assert forall|i: int| 0 <= i < w implies #[trigger] one(i) == two(i) by {
            crate::dct_math::law_transpose_swaps_cells(rows, wi, x, i);
            assert(crate::plane_laws::entry(val, rows, wi, i, x) == e(wi, i, x));
            assert(crate::plane_laws::entry(val, c, wi, y, i) == crate::plane_laws::entry(
                val,
                c_2,
                wi,
                y,
                i,
            ));
        }
        crate::sums::lemma_total_equal(one, two, w);
    }
}

/// The fast transforms and the matrix multiply give the same picture: in exact
/// arithmetic, with a device that is exact for the basis of the matrices, and a
/// cutoff that treats every coefficient one way, a plane that the device
/// transforms holds the same numbers as one that the matrices transform.
pub proof fn law_both_algorithms_agree<M: PlaneMath, D: AxisTransform<Sample = M::Sample>>(
    m: &M,
    device: &D,
    val: spec_fn(M::Sample) -> real,
    e: spec_fn(int, int, int) -> real,
    pixels: Seq<M::Sample>,
    w: usize,
    h: usize,
    row_factors: Option<Seq<usize>>,
    col_factors: Option<Seq<usize>>,
    cutoff: M::Cutoff,
    t: M::Threshold,
    out: Seq<M::Sample>,
    out_2: Seq<M::Sample>,
)
    requires
        crate::plane_laws::exact(m, val),
        device_exact(device, val, e, w),
        device_exact(device, val, e, h),
        crate::fft_plane::runnable(w as nat, row_factors),
        crate::fft_plane::runnable(h as nat, col_factors),
        basis_exact(m, val, e, w as int),
        basis_exact(m, val, e, h as int),
        pixels.len() == w * h,
        call_ensures(M::threshold, (m, cutoff), t),
        forall|u: M::Threshold, x: int, y: int|
            call_ensures(M::threshold, (m, cutoff), u) && 0 <= x < w && 0 <= y < h
                ==> #[trigger] same_cut(m, t, u, w as int, h as int, x, y),
        crate::fft_plane::plane_by_device(
            m,
            device,
            pixels,
            w,
            h,
            row_factors,
            col_factors,
            t,
            Ok(out),
        ),
        crate::cpu::plane_done(m, pixels, w as int, h as int, cutoff, out_2),
    ensures
        out.len() == pixels.len(),
        out_2.len() == pixels.len(),
        same_numbers(val, out, out_2, w as int, h as int),
{
    let (wi, hi) = (w as int, h as int);
    let (wn, hn) = (w as nat, h as nat);
    assert(hi * wi == wi * hi) by (nonlinear_arith);
    let done = Ok::<Seq<M::Sample>, crate::dct_backend::TransformError>(out);
    let (rows, cols, u, a_2, b_2, c_2) = choose|
        rows: Seq<M::Sample>,
        cols: Seq<M::Sample>,
        t: M::Threshold,
        a: Seq<M::Sample>,
        b: Seq<M::Sample>,
        c: Seq<M::Sample>,
    |
        #[trigger] crate::cpu::plane_steps(
            m,
            pixels,
            wi,
            hi,
            cutoff,
            rows,
            cols,
            t,
            a,
            b,
            c,
            out_2,
        );
    // Along the rows.
    let r_1 = choose|r: Result<Seq<M::Sample>, crate::dct_backend::TransformError>|
        {
            &&& #[trigger] crate::fft_plane::axis_step(
                device,
                Direction::Forward,
                pixels,
                w,
                row_factors,
                h,
                r,
            )
            &&& match r {
                Ok(a) => crate::fft_plane::columns_forth(
                    m,
                    device,
                    a,
                    w,
                    h,
                    row_factors,
                    col_factors,
                    t,
                    done,
                ),
                Err(e) => done matches Err(error) && error == e,
            }
        };
    let a = r_1->Ok_0;
    lemma_step(device, val, e, Direction::Forward, pixels, w, row_factors, h, a);
    lemma_rows_agree(m, val, e, pixels, wn, hn, rows, a, a_2);
    // Along the columns, with the cutoff.
    let turned = crate::dct_math::turned_over(a, wi, hi);
    let r_2 = choose|r: Result<Seq<M::Sample>, crate::dct_backend::TransformError>|
        {
            &&& #[trigger] crate::fft_plane::axis_step(
                device,
                Direction::Forward,
                turned,
                h,
                col_factors,
                w,
                r,
            )
            &&& match r {
                Ok(b) => crate::fft_plane::cut_and_back(
                    m,
                    device,
                    crate::dct_math::turned_over(b, hi, wi),
                    w,
                    h,
                    row_factors,
                    col_factors,
                    t,
                    done,
                ),
                Err(e) => done matches Err(error) && error == e,
            }
        };
    let b = r_2->Ok_0;
    lemma_step(device, val, e, Direction::Forward, turned, h, col_factors, w, b);
    let coefficients = crate::dct_math::turned_over(b, hi, wi);
    let kept = choose|kept: Seq<M::Sample>|
        {
            &&& #[trigger] crate::fft_plane::cut_plane(m, t, wi, hi, coefficients, kept)
            &&& crate::fft_plane::columns_back(
                m,
                device,
                kept,
                w,
                h,
                row_factors,
                col_factors,
                done,
            )
        };
    lemma_coefficients_agree(m, val, e, wn, hn, cols, t, u, a, b, kept, a_2, b_2);
    // Back along the columns.
    let turned = crate::dct_math::turned_over(kept, wi, hi);
    let r_3 = choose|r: Result<Seq<M::Sample>, crate::dct_backend::TransformError>|
        {
            &&& #[trigger] crate::fft_plane::axis_step(
                device,
                Direction::Inverse,
                turned,
                h,
                col_factors,
                w,
                r,
            )
            &&& match r {
                Ok(c) => crate::fft_plane::rows_back(
                    m,
                    device,
                    crate::dct_math::turned_over(c, hi, wi),
                    w,
                    h,
                    row_factors,
                    done,
                ),
                Err(e) => done matches Err(error) && error == e,
            }
        };
    let c = r_3->Ok_0;
    lemma_step(device, val, e, Direction::Inverse, turned, h, col_factors, w, c);
    lemma_columns_back_agree(m, val, e, wn, hn, cols, kept, c, b_2, c_2);
    // And back along the rows.
    let back = crate::dct_math::turned_over(c, hi, wi);
    let r_4 = choose|r: Result<Seq<M::Sample>, crate::dct_backend::TransformError>|
        {
            &&& #[trigger] crate::fft_plane::axis_step(
                device,
                Direction::Inverse,
                back,
                w,
                row_factors,
                h,
                r,
            )
            &&& match r {
                Ok(d) => done matches Ok(out) && crate::fft_plane::pixels_held(m, d, out),
                Err(e) => done matches Err(error) && error == e,
            }
        };
    let d = r_4->Ok_0;
    lemma_step(device, val, e, Direction::Inverse, back, w, row_factors, h, d);
    lemma_pixels_agree(m, val, e, wn, hn, rows, back, d, out, c_2, out_2);
}

} // verus!
