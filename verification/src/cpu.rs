//! The whole-frame DCT on the CPU: every row pass and column pass spread over
//! its rows.
use crate::dct_backend::{
    check_length, check_lengths, DctBackend, RgbPlanes, SlotCall, TransformError,
};
use crate::dct_math::{dct_basis, transpose_square, PlaneMath};
use crate::parallel::{joined_rows, par_map};
use vstd::prelude::*;

verus! {

/// `out` is the sum of the products of `a` and `b`, taken from the left.
pub open spec fn dots<M: PlaneMath>(
    m: &M,
    a: Seq<M::Sample>,
    b: Seq<M::Sample>,
    out: M::Sample,
) -> bool
    decreases a.len(),
{
    if a.len() == 0 {
        call_ensures(M::zero, (m,), out)
    } else {
        exists|prev: M::Sample|
            {
                &&& dots(m, a.drop_last(), b.drop_last(), prev)
                &&& #[trigger] call_ensures(M::multiply_add, (m, prev, a.last(), b.last()), out)
            }
    }
}

/// Row `y` of data with `w` elements to a row.
pub open spec fn row_of<T>(data: Seq<T>, w: int, y: int) -> Seq<T> {
    Seq::new(w as nat, |i: int| data[y * w + i])
}

/// Column `x` of `h` rows of `w` elements.
pub open spec fn column_of<T>(data: Seq<T>, w: int, h: int, x: int) -> Seq<T> {
    Seq::new(h as nat, |i: int| data[i * w + x])
}

/// Cell `(x, y)` of a row pass.
pub open spec fn row_cell<M: PlaneMath>(
    m: &M,
    src: Seq<M::Sample>,
    w: int,
    basis: Seq<M::Sample>,
    clamp: bool,
    x: int,
    y: int,
    out: M::Sample,
) -> bool {
    exists|sum: M::Sample|
        {
            &&& #[trigger] dots(m, row_of(src, w, y), row_of(basis, w, x), sum)
            &&& if clamp {
                call_ensures(M::pixel, (m, sum), out)
            } else {
                out == sum
            }
        }
}

/// `dst` is `src` with every row transformed along the width axis by `basis`.
pub open spec fn row_pass<M: PlaneMath>(
    m: &M,
    src: Seq<M::Sample>,
    w: int,
    h: int,
    basis: Seq<M::Sample>,
    clamp: bool,
    dst: Seq<M::Sample>,
) -> bool {
    &&& dst.len() == w * h
    &&& forall|x: int, y: int|
        0 <= x < w && 0 <= y < h ==> #[trigger] row_cell(
            m,
            src,
            w,
            basis,
            clamp,
            x,
            y,
            dst[y * w + x],
        )
}

/// What rank `1` along an axis of `n` cells is measured in: the last index, or
/// 1 for a single cell.
pub open spec fn rank_denominator(n: int) -> int {
    if n <= 2 {
        1
    } else {
        n - 1
    }
}

/// Cell `(x, y)` of a column pass.
pub open spec fn column_cell<M: PlaneMath>(
    m: &M,
    src: Seq<M::Sample>,
    w: int,
    h: int,
    basis: Seq<M::Sample>,
    mask: Option<M::Threshold>,
    x: int,
    y: int,
    out: M::Sample,
) -> bool {
    exists|sum: M::Sample|
        {
            &&& #[trigger] dots(m, column_of(src, w, h, x), row_of(basis, h, y), sum)
            &&& match mask {
                None => out == sum,
                Some(t) => exists|beyond: bool|
                    {
                        &&& #[trigger] call_ensures(
                            M::beyond,
                            (
                                m,
                                t,
                                x as usize,
                                rank_denominator(w) as usize,
                                y as usize,
                                rank_denominator(h) as usize,
                            ),
                            beyond,
                        )
                        &&& if beyond {
                            call_ensures(M::zero, (m,), out)
                        } else {
                            out == sum
                        }
                    },
            }
        }
}

/// `dst` is `src` with every column transformed along the height axis by
/// `basis`, coefficients beyond the threshold `mask` set to zero.
pub open spec fn column_pass<M: PlaneMath>(
    m: &M,
    src: Seq<M::Sample>,
    w: int,
    h: int,
    basis: Seq<M::Sample>,
    mask: Option<M::Threshold>,
    dst: Seq<M::Sample>,
) -> bool {
    &&& dst.len() == w * h
    &&& forall|x: int, y: int|
        0 <= x < w && 0 <= y < h ==> #[trigger] column_cell(
            m,
            src,
            w,
            h,
            basis,
            mask,
            x,
            y,
            dst[y * w + x],
        )
}

/// `row` is row `y` of a row pass.
spec fn row_done<M: PlaneMath>(
    m: &M,
    src: Seq<M::Sample>,
    w: int,
    basis: Seq<M::Sample>,
    clamp: bool,
    y: int,
    row: Seq<M::Sample>,
) -> bool {
    &&& row.len() == w
    &&& forall|x: int|
        0 <= x < w ==> #[trigger] row_cell(m, src, w, basis, clamp, x, y, row[x])
}

/// One cell of a row pass.
fn row_sum<M: PlaneMath>(
    m: &M,
    src: &[M::Sample],
    w: usize,
    basis: &[M::Sample],
    x: usize,
    y: usize,
) -> (sum: M::Sample)
    requires
        y * w + w <= src@.len(),
        x * w + w <= basis@.len(),
    ensures
        dots(m, row_of(src@, w as int, y as int), row_of(basis@, w as int, x as int), sum),
{
    let (src_len, basis_len): (usize, usize) = (src.len(), basis.len());
    let ghost a = row_of(src@, w as int, y as int);
    let ghost b = row_of(basis@, w as int, x as int);
    assert(0 <= y * w && 0 <= x * w) by (nonlinear_arith);
    let mut sum = m.zero();
    let mut i: usize = 0;
    assert(a.take(0) =~= Seq::empty());
    while i < w
        invariant
            i <= w,
            src_len == src@.len(),
            basis_len == basis@.len(),
            0 <= y * w,
            0 <= x * w,
            y * w + w <= src_len,
            x * w + w <= basis_len,
            a == row_of(src@, w as int, y as int),
            b == row_of(basis@, w as int, x as int),
            dots(m, a.take(i as int), b.take(i as int), sum),
        decreases w - i,
    {
        let (s, c) = (src[y * w + i], basis[x * w + i]);
        let ghost prev = sum;
        sum = m.multiply_add(sum, s, c);
        proof {
            let (a1, b1) = (a.take(i + 1), b.take(i + 1));
            assert(a1.drop_last() =~= a.take(i as int));
            assert(b1.drop_last() =~= b.take(i as int));
            assert(a1.last() == s && b1.last() == c);
            assert(call_ensures(M::multiply_add, (m, prev, a1.last(), b1.last()), sum));
            assert(dots(m, a1, b1, sum));
        }
        i = i + 1;
    }
    assert(a.take(w as int) =~= a);
    assert(b.take(w as int) =~= b);
    sum
}

/// One row of a row pass.
fn row_of_row_pass<M: PlaneMath>(
    m: &M,
    src: &[M::Sample],
    w: usize,
    basis: &[M::Sample],
    clamp: bool,
    y: usize,
) -> (row: Vec<M::Sample>)
    requires
        y * w + w <= src@.len(),
        w * w <= basis@.len(),
    ensures
        row_done(m, src@, w as int, basis@, clamp, y as int, row@),
{
    let mut row: Vec<M::Sample> = Vec::with_capacity(w);
    let mut x: usize = 0;
    while x < w
        invariant
            x <= w,
            y * w + w <= src@.len(),
            w * w <= basis@.len(),
            row@.len() == x,
            forall|t: int|
                0 <= t < x ==> #[trigger] row_cell(
                    m,
                    src@,
                    w as int,
                    basis@,
                    clamp,
                    t,
                    y as int,
                    row@[t],
                ),
        decreases w - x,
    {
        assert(x * w + w <= w * w) by (nonlinear_arith)
            requires
                x < w,
        ;
        let sum = row_sum(m, src, w, basis, x, y);
        let out = if clamp {
            m.pixel(sum)
        } else {
            sum
        };
        assert(row_cell(m, src@, w as int, basis@, clamp, x as int, y as int, out));
        row.push(out);
        x = x + 1;
    }
    row
}

/// Transforms every row independently along the width axis. Serves the forward
/// row transform and, with the transposed basis and `clamp`, the inverse one.
fn row_transform<M: PlaneMath + Sync>(
    m: &M,
    src: &[M::Sample],
    w: usize,
    h: usize,
    basis: &[M::Sample],
    clamp: bool,
) -> (dst: Vec<M::Sample>)
    requires
        src@.len() == w * h,
        w * w <= basis@.len(),
    ensures
        row_pass(m, src@, w as int, h as int, basis@, clamp, dst@),
{
    let len: usize = src.len();
    let per_row = |y: usize| -> (row: Vec<M::Sample>)
        requires
            y < h,
        ensures
            row_done(m, src@, w as int, basis@, clamp, y as int, row@),
        {
            assert(y * w + w <= w * h) by (nonlinear_arith)
                requires
                    y < h,
            ;
            row_of_row_pass(m, src, w, basis, clamp, y)
        };
    let rows: Vec<Vec<M::Sample>> = par_map(h, per_row);
    proof {
        assert forall|y: int| 0 <= y < h implies #[trigger] rows@[y]@.len() == w by {
            let k = y as usize;
            assert(call_ensures(per_row, (k,), rows@[k as int]));
        }
    }
    let dst = joined_rows(&rows, w);
    proof {
        assert forall|x: int, y: int| 0 <= x < w && 0 <= y < h implies #[trigger] row_cell(
            m,
            src@,
            w as int,
            basis@,
            clamp,
            x,
            y,
            dst@[y * w + x],
        ) by {
            let k = y as usize;
            assert(call_ensures(per_row, (k,), rows@[k as int]));
            assert(dst@[y * w + x] == rows@[y]@[x]);
            assert(row_done(m, src@, w as int, basis@, clamp, y, rows@[y]@));
            assert(row_cell(m, src@, w as int, basis@, clamp, x, y, rows@[y]@[x]));
        }
    }
    dst
}

/// `row` is row `y` of a column pass.
spec fn column_row_done<M: PlaneMath>(
    m: &M,
    src: Seq<M::Sample>,
    w: int,
    h: int,
    basis: Seq<M::Sample>,
    mask: Option<M::Threshold>,
    y: int,
    row: Seq<M::Sample>,
) -> bool {
    &&& row.len() == w
    &&& forall|x: int|
        0 <= x < w ==> #[trigger] column_cell(m, src, w, h, basis, mask, x, y, row[x])
}

/// One cell of a column pass, before the mask.
fn column_sum<M: PlaneMath>(
    m: &M,
    src: &[M::Sample],
    w: usize,
    h: usize,
    basis: &[M::Sample],
    x: usize,
    y: usize,
) -> (sum: M::Sample)
    requires
        src@.len() == w * h,
        x < w,
        y * h + h <= basis@.len(),
    ensures
        dots(
            m,
            column_of(src@, w as int, h as int, x as int),
            row_of(basis@, h as int, y as int),
            sum,
        ),
{
    let (src_len, basis_len): (usize, usize) = (src.len(), basis.len());
    let ghost a = column_of(src@, w as int, h as int, x as int);
    let ghost b = row_of(basis@, h as int, y as int);
    assert(0 <= y * h) by (nonlinear_arith);
    let mut sum = m.zero();
    let mut i: usize = 0;
    assert(a.take(0) =~= Seq::empty());
    while i < h
        invariant
            i <= h,
            x < w,
            src_len == src@.len(),
            basis_len == basis@.len(),
            0 <= y * h,
            src_len == w * h,
            y * h + h <= basis_len,
            a == column_of(src@, w as int, h as int, x as int),
            b == row_of(basis@, h as int, y as int),
            dots(m, a.take(i as int), b.take(i as int), sum),
        decreases h - i,
    {
        proof {
            crate::arith::lemma_cell_bound(i as int, x as int, h as int, w as int);
            assert(h * w == w * h) by (nonlinear_arith);
            assert(0 <= i * w) by (nonlinear_arith);
        }
        let (s, c) = (src[i * w + x], basis[y * h + i]);
        let ghost prev = sum;
        sum = m.multiply_add(sum, s, c);
        proof {
            let (a1, b1) = (a.take(i + 1), b.take(i + 1));
            assert(a1.drop_last() =~= a.take(i as int));
            assert(b1.drop_last() =~= b.take(i as int));
            assert(a1.last() == s && b1.last() == c);
            assert(call_ensures(M::multiply_add, (m, prev, a1.last(), b1.last()), sum));
            assert(dots(m, a1, b1, sum));
        }
        i = i + 1;
    }
    assert(a.take(h as int) =~= a);
    assert(b.take(h as int) =~= b);
    sum
}

/// What rank `1` along an axis is measured in.
fn rank_unit(n: usize) -> (d: usize)
    ensures
        d == rank_denominator(n as int),
{
    if n <= 2 {
        1
    } else {
        n - 1
    }
}

/// One row of a column pass.
fn row_of_column_pass<M: PlaneMath>(
    m: &M,
    src: &[M::Sample],
    w: usize,
    h: usize,
    basis: &[M::Sample],
    mask: Option<M::Threshold>,
    y: usize,
) -> (row: Vec<M::Sample>)
    requires
        src@.len() == w * h,
        y * h + h <= basis@.len(),
    ensures
        column_row_done(m, src@, w as int, h as int, basis@, mask, y as int, row@),
{
    let denom_x: usize = rank_unit(w);
    let denom_y: usize = rank_unit(h);
    let mut row: Vec<M::Sample> = Vec::with_capacity(w);
    let mut x: usize = 0;
    while x < w
        invariant
            x <= w,
            src@.len() == w * h,
            y * h + h <= basis@.len(),
            denom_x == rank_denominator(w as int),
            denom_y == rank_denominator(h as int),
            row@.len() == x,
            forall|t: int|
                0 <= t < x ==> #[trigger] column_cell(
                    m,
                    src@,
                    w as int,
                    h as int,
                    basis@,
                    mask,
                    t,
                    y as int,
                    row@[t],
                ),
        decreases w - x,
    {
        let sum = column_sum(m, src, w, h, basis, x, y);
        let out = match mask {
            Some(threshold) => {
                let beyond: bool = m.beyond(threshold, x, denom_x, y, denom_y);
                if beyond {
                    m.zero()
                } else {
                    sum
                }
            },
            None => sum,
        };
        assert(column_cell(m, src@, w as int, h as int, basis@, mask, x as int, y as int, out));
        row.push(out);
        x = x + 1;
    }
    row
}

/// Transforms every column independently along the height axis. Serves the
/// forward column transform, which masks, and, with the transposed basis and no
/// mask, the inverse one.
fn col_transform<M: PlaneMath + Sync>(
    m: &M,
    src: &[M::Sample],
    w: usize,
    h: usize,
    basis: &[M::Sample],
    mask: Option<M::Threshold>,
) -> (dst: Vec<M::Sample>)
    requires
        src@.len() == w * h,
        h * h <= basis@.len(),
    ensures
        column_pass(m, src@, w as int, h as int, basis@, mask, dst@),
{
    let len: usize = src.len();
    let per_row = |y: usize| -> (row: Vec<M::Sample>)
        requires
            y < h,
        ensures
            column_row_done(m, src@, w as int, h as int, basis@, mask, y as int, row@),
        {
            assert(y * h + h <= h * h) by (nonlinear_arith)
                requires
                    y < h,
            ;
            row_of_column_pass(m, src, w, h, basis, mask, y)
        };
    let rows: Vec<Vec<M::Sample>> = par_map(h, per_row);
    proof {
        assert forall|y: int| 0 <= y < h implies #[trigger] rows@[y]@.len() == w by {
            let k = y as usize;
            assert(call_ensures(per_row, (k,), rows@[k as int]));
        }
    }
    let dst = joined_rows(&rows, w);
    proof {
        assert forall|x: int, y: int| 0 <= x < w && 0 <= y < h implies #[trigger] column_cell(
            m,
            src@,
            w as int,
            h as int,
            basis@,
            mask,
            x,
            y,
            dst@[y * w + x],
        ) by {
            let k = y as usize;
            assert(call_ensures(per_row, (k,), rows@[k as int]));
            assert(dst@[y * w + x] == rows@[y]@[x]);
            assert(column_row_done(m, src@, w as int, h as int, basis@, mask, y, rows@[y]@));
            assert(column_cell(m, src@, w as int, h as int, basis@, mask, x, y, rows@[y]@[x]));
        }
    }
    dst
}

/// Cell `(x, y)` after the cutoff.
pub open spec fn cut_cell<M: PlaneMath>(
    m: &M,
    t: M::Threshold,
    w: int,
    h: int,
    x: int,
    y: int,
    value: M::Sample,
    out: M::Sample,
) -> bool {
    exists|beyond: bool|
        {
            &&& #[trigger] call_ensures(
                M::beyond,
                (
                    m,
                    t,
                    x as usize,
                    rank_denominator(w) as usize,
                    y as usize,
                    rank_denominator(h) as usize,
                ),
                beyond,
            )
            &&& if beyond {
                call_ensures(M::zero, (m,), out)
            } else {
                out == value
            }
        }
}

/// Sets every coefficient of a plane that lies beyond the threshold to zero.
pub fn apply_cutoff<M: PlaneMath>(
    m: &M,
    plane: &[M::Sample],
    w: usize,
    h: usize,
    threshold: M::Threshold,
) -> (out: Vec<M::Sample>)
    requires
        plane@.len() == w * h,
    ensures
        out@.len() == w * h,
        forall|x: int, y: int|
            0 <= x < w && 0 <= y < h ==> #[trigger] cut_cell(
                m,
                threshold,
                w as int,
                h as int,
                x,
                y,
                plane@[y * w + x],
                out@[y * w + x],
            ),
{
    let len: usize = plane.len();
    let (denom_x, denom_y): (usize, usize) = (rank_unit(w), rank_unit(h));
    let ghost (wi, hi) = (w as int, h as int);
    let mut out: Vec<M::Sample> = Vec::with_capacity(w * h);
    let mut y: usize = 0;
    while y < h
        invariant
            y <= h,
            wi == w,
            hi == h,
            len == plane@.len(),
            len == w * h,
            denom_x == rank_denominator(wi),
            denom_y == rank_denominator(hi),
            out@.len() == y * w,
            forall|x: int, t: int|
                0 <= x < w && 0 <= t < y ==> #[trigger] cut_cell(
                    m,
                    threshold,
                    wi,
                    hi,
                    x,
                    t,
                    plane@[t * w + x],
                    out@[t * w + x],
                ),
        decreases h - y,
    {
        let mut x: usize = 0;
        while x < w
            invariant
                x <= w,
                y < h,
                wi == w,
                hi == h,
                len == plane@.len(),
                len == w * h,
                denom_x == rank_denominator(wi),
                denom_y == rank_denominator(hi),
                out@.len() == y * w + x,
                forall|xx: int, t: int|
                    0 <= xx < w && 0 <= t < y ==> #[trigger] cut_cell(
                        m,
                        threshold,
                        wi,
                        hi,
                        xx,
                        t,
                        plane@[t * w + xx],
                        out@[t * w + xx],
                    ),
                forall|xx: int|
                    0 <= xx < x ==> #[trigger] cut_cell(
                        m,
                        threshold,
                        wi,
                        hi,
                        xx,
                        y as int,
                        plane@[y * w + xx],
                        out@[y * w + xx],
                    ),
            decreases w - x,
        {
            proof {
                crate::arith::lemma_cell_bound(y as int, x as int, hi, wi);
                assert(h * w == w * h) by (nonlinear_arith);
                assert(0 <= y * w) by (nonlinear_arith);
            }
            let value = plane[y * w + x];
            let beyond: bool = m.beyond(threshold, x, denom_x, y, denom_y);
            let cut = if beyond {
                m.zero()
            } else {
                value
            };
            assert(cut_cell(m, threshold, wi, hi, x as int, y as int, value, cut));
            let ghost was = out@;
            out.push(cut);
            proof {
                assert forall|xx: int, t: int|
                    0 <= xx < w && 0 <= t < y implies #[trigger] cut_cell(
                    m,
                    threshold,
                    wi,
                    hi,
                    xx,
                    t,
                    plane@[t * w + xx],
                    out@[t * w + xx],
                ) by {
                    crate::arith::lemma_cell_bound(t, xx, y as int, wi);
                    assert(cut_cell(
                        m,
                        threshold,
                        wi,
                        hi,
                        xx,
                        t,
                        plane@[t * w + xx],
                        was[t * w + xx],
                    ));
                }
                assert forall|xx: int| 0 <= xx < x + 1 implies #[trigger] cut_cell(
                    m,
                    threshold,
                    wi,
                    hi,
                    xx,
                    y as int,
                    plane@[y * w + xx],
                    out@[y * w + xx],
                ) by {
                    if xx < x {
                        assert(cut_cell(
                            m,
                            threshold,
                            wi,
                            hi,
                            xx,
                            y as int,
                            plane@[y * w + xx],
                            was[y * w + xx],
                        ));
                    }
                }
            }
            x = x + 1;
        }
        assert((y + 1) * w == y * w + w) by (nonlinear_arith);
        y = y + 1;
    }
    assert(h * w == w * h) by (nonlinear_arith);
    out
}

/// The basis matrices of one frame size, kept while the size stays the same:
/// they do not depend on the cutoff.
struct Basis<T> {
    width: u32,
    height: u32,
    row_basis: Vec<T>,
    row_basis_t: Vec<T>,
    col_basis: Vec<T>,
    col_basis_t: Vec<T>,
}

/// `out` is the plane `pixels` after the forward transform, the cutoff and the
/// inverse transform.
pub open spec fn plane_done<M: PlaneMath>(
    m: &M,
    pixels: Seq<M::Sample>,
    w: int,
    h: int,
    cutoff: M::Cutoff,
    out: Seq<M::Sample>,
) -> bool {
    exists|
        rows: Seq<M::Sample>,
        cols: Seq<M::Sample>,
        t: M::Threshold,
        a: Seq<M::Sample>,
        b: Seq<M::Sample>,
        c: Seq<M::Sample>,
    |
        #[trigger] plane_steps(m, pixels, w, h, cutoff, rows, cols, t, a, b, c, out)
}

/// The steps of one plane: the row transform gives `a`, the column transform
/// with the cutoff `b`, the inverse column transform `c`, and the inverse row
/// transform, held to the range of a pixel, `out`.
pub open spec fn plane_steps<M: PlaneMath>(
    m: &M,
    pixels: Seq<M::Sample>,
    w: int,
    h: int,
    cutoff: M::Cutoff,
    rows: Seq<M::Sample>,
    cols: Seq<M::Sample>,
    t: M::Threshold,
    a: Seq<M::Sample>,
    b: Seq<M::Sample>,
    c: Seq<M::Sample>,
    out: Seq<M::Sample>,
) -> bool {
    &&& crate::dct_math::is_basis(m, w, rows)
    &&& crate::dct_math::is_basis(m, h, cols)
    &&& call_ensures(M::threshold, (m, cutoff), t)
    &&& row_pass(m, pixels, w, h, rows, false, a)
    &&& column_pass(m, a, w, h, cols, Some(t), b)
    &&& column_pass(m, b, w, h, crate::dct_math::transposed(cols, h), None, c)
    &&& row_pass(m, c, w, h, crate::dct_math::transposed(rows, w), true, out)
}

/// `out` holds the three planes after the transform.
pub open spec fn rgb_done<M: PlaneMath>(
    m: &M,
    r: Seq<M::Sample>,
    g: Seq<M::Sample>,
    b: Seq<M::Sample>,
    w: int,
    h: int,
    cutoff: M::Cutoff,
    out: RgbPlanes<M::Sample>,
) -> bool {
    &&& plane_done(m, r, w, h, cutoff, out.r@)
    &&& plane_done(m, g, w, h, cutoff, out.g@)
    &&& plane_done(m, b, w, h, cutoff, out.b@)
}

/// Whole-frame DCT-II distortion without a GPU. A frame handed to a slot is
/// computed at once and kept until it is taken: there is no queue to keep busy.
pub struct DctCpu<M: PlaneMath> {
    math: M,
    basis: Option<Basis<M::Sample>>,
    slot_0: Option<RgbPlanes<M::Sample>>,
    slot_1: Option<RgbPlanes<M::Sample>>,
}

impl<M: PlaneMath> DctCpu<M> {
    /// The arithmetic the backend runs on.
    pub closed spec fn arithmetic(self) -> M {
        self.math
    }

    /// The finished frame that waits in a slot.
    pub closed spec fn stashed(self, slot: int) -> Option<RgbPlanes<M::Sample>> {
        if slot == 0 {
            self.slot_0
        } else if slot == 1 {
            self.slot_1
        } else {
            None
        }
    }

    /// The kept matrices, if there are any, are those of their frame size.
    #[verifier::type_invariant]
    spec fn well_formed(self) -> bool {
        self.basis matches Some(b) ==> b.fits(&self.math)
    }
}

impl<T: Copy> Basis<T> {
    /// These are the matrices of their frame size, under the arithmetic `m`.
    spec fn fits<M: PlaneMath<Sample = T>>(self, m: &M) -> bool {
        &&& crate::dct_math::is_basis(m, self.width as int, self.row_basis@)
        &&& crate::dct_math::is_basis(m, self.height as int, self.col_basis@)
        &&& self.row_basis_t@ == crate::dct_math::transposed(self.row_basis@, self.width as int)
        &&& self.col_basis_t@ == crate::dct_math::transposed(self.col_basis@, self.height as int)
    }

    /// The matrices for frames of `width` by `height`.
    fn new<M: PlaneMath<Sample = T>>(m: &M, width: u32, height: u32) -> (b: Self)
        requires
            crate::dct_backend::basis_fits(width, height),
        ensures
            b.fits(m),
            b.width == width,
            b.height == height,
    {
        let (w, h): (usize, usize) = (width as usize, height as usize);
        let row_basis = dct_basis(m, w);
        let row_basis_t = transpose_square(row_basis.as_slice(), w);
        let col_basis = dct_basis(m, h);
        let col_basis_t = transpose_square(col_basis.as_slice(), h);
        Basis { width, height, row_basis, row_basis_t, col_basis, col_basis_t }
    }
}

impl<M: PlaneMath + Sync> DctCpu<M> {
    /// A backend with nothing cached and both slots empty.
    pub fn new(math: M) -> (cpu: Self)
        ensures
            cpu.arithmetic() == math,
            forall|slot: int| #[trigger] cpu.stashed(slot) is None,
    {
        DctCpu { math, basis: None, slot_0: None, slot_1: None }
    }

    /// Runs the whole-frame forward transform, cutoff and inverse transform on
    /// one plane, row by row.
    pub fn process_plane(
        &mut self,
        pixels: &[M::Sample],
        width: u32,
        height: u32,
        cutoff: M::Cutoff,
    ) -> (res: Result<Vec<M::Sample>, TransformError>)
        requires
            crate::dct_backend::plane_error(pixels@.len(), width, height) is None
                ==> crate::dct_backend::basis_fits(width, height),
        ensures
            final(self).arithmetic() == old(self).arithmetic(),
            forall|slot: int| #[trigger] final(self).stashed(slot) == old(self).stashed(slot),
            match res {
                Ok(out) => {
                    &&& crate::dct_backend::plane_error(pixels@.len(), width, height) is None
                    &&& plane_done(
                        &old(self).arithmetic(),
                        pixels@,
                        width as int,
                        height as int,
                        cutoff,
                        out@,
                    )
                },
                Err(e) => crate::dct_backend::plane_error(pixels@.len(), width, height) == Some(e),
            },
    {
        match check_length(pixels.len(), width, height) {
            Ok(()) => {},
            Err(e) => return Err(e),
        }
        let (w, h): (usize, usize) = (width as usize, height as usize);
        proof {
            use_type_invariant(&*self);
        }
        let mut cache: Option<Basis<M::Sample>> = None;
        std::mem::swap(&mut cache, &mut self.basis);
        let basis: Basis<M::Sample> = match cache {
            Some(kept) => if kept.width == width && kept.height == height {
                kept
            } else {
                Basis::new(&self.math, width, height)
            },
            None => Basis::new(&self.math, width, height),
        };
        let threshold = self.math.threshold(cutoff);
        let a = row_transform(&self.math, pixels, w, h, basis.row_basis.as_slice(), false);
        let b = col_transform(
            &self.math,
            a.as_slice(),
            w,
            h,
            basis.col_basis.as_slice(),
            Some(threshold),
        );
        let c = col_transform(&self.math, b.as_slice(), w, h, basis.col_basis_t.as_slice(), None);
        let d = row_transform(&self.math, c.as_slice(), w, h, basis.row_basis_t.as_slice(), true);
        assert(plane_steps(
            &self.math,
            pixels@,
            w as int,
            h as int,
            cutoff,
            basis.row_basis@,
            basis.col_basis@,
            threshold,
            a@,
            b@,
            c@,
            d@,
        ));
        self.basis = Some(basis);
        Ok(d)
    }

    /// Transforms the three planes of one frame.
    pub fn process_rgb(
        &mut self,
        r: &[M::Sample],
        g: &[M::Sample],
        b: &[M::Sample],
        width: u32,
        height: u32,
        cutoff: M::Cutoff,
    ) -> (res: Result<RgbPlanes<M::Sample>, TransformError>)
        requires
            crate::dct_backend::rgb_error(r@.len(), g@.len(), b@.len(), width, height) is None
                ==> crate::dct_backend::basis_fits(width, height),
        ensures
            final(self).arithmetic() == old(self).arithmetic(),
            forall|slot: int| #[trigger] final(self).stashed(slot) == old(self).stashed(slot),
            match res {
                Ok(out) => {
                    &&& crate::dct_backend::rgb_error(r@.len(), g@.len(), b@.len(), width, height) is None
                    &&& rgb_done(
                        &old(self).arithmetic(),
                        r@,
                        g@,
                        b@,
                        width as int,
                        height as int,
                        cutoff,
                        out,
                    )
                },
                Err(e) => crate::dct_backend::rgb_error(r@.len(), g@.len(), b@.len(), width, height) == Some(e),
            },
    {
        match check_lengths(r.len(), g.len(), b.len(), width, height) {
            Ok(()) => {},
            Err(e) => return Err(e),
        }
        let r_out = match self.process_plane(r, width, height, cutoff) {
            Ok(out) => out,
            Err(e) => return Err(e),
        };
        let g_out = match self.process_plane(g, width, height, cutoff) {
            Ok(out) => out,
            Err(e) => return Err(e),
        };
        let b_out = match self.process_plane(b, width, height, cutoff) {
            Ok(out) => out,
            Err(e) => return Err(e),
        };
        Ok(RgbPlanes { r: r_out, g: g_out, b: b_out })
    }

    /// Computes one frame and keeps the result for `finish_rgb` on the same
    /// slot to take.
    pub fn submit_rgb(
        &mut self,
        frame_slot: usize,
        r: &[M::Sample],
        g: &[M::Sample],
        b: &[M::Sample],
        width: u32,
        height: u32,
        cutoff: M::Cutoff,
    ) -> (res: Result<(), TransformError>)
        requires
            submit_error(frame_slot, r@.len(), g@.len(), b@.len(), width, height) is None
                ==> crate::dct_backend::basis_fits(width, height),
        ensures
            match res {
                Ok(_) => exists|out: RgbPlanes<M::Sample>|
                    {
                        &&& #[trigger] submitted(*old(self), frame_slot as int, out, *final(self))
                        &&& rgb_done(
                            &old(self).arithmetic(),
                            r@,
                            g@,
                            b@,
                            width as int,
                            height as int,
                            cutoff,
                            out,
                        )
                    },
                Err(e) => same_slots(*old(self), *final(self)),
            },
            res matches Err(e) ==> submit_error(
                frame_slot,
                r@.len(),
                g@.len(),
                b@.len(),
                width,
                height,
            ) == Some(e),
            res is Ok ==> submit_error(frame_slot, r@.len(), g@.len(), b@.len(), width, height)
                is None,
    {
        if frame_slot >= 2 {
            return Err(TransformError::NoSuchSlot { call: SlotCall::Submit, slot: frame_slot });
        }
        let out = match self.process_rgb(r, g, b, width, height, cutoff) {
            Ok(out) => out,
            Err(e) => return Err(e),
        };
        let ghost kept = out;
        let ghost mid = *self;
        proof {
            use_type_invariant(&*self);
        }
        if frame_slot == 0 {
            self.slot_0 = Some(out);
        } else {
            self.slot_1 = Some(out);
        }
        proof {
            assert forall|other: int| other != frame_slot implies #[trigger] self.stashed(other)
                == old(self).stashed(other) by {
                assert(mid.stashed(other) == old(self).stashed(other));
            }
            assert(submitted(*old(self), frame_slot as int, kept, *self));
        }
        Ok(())
    }

    /// Takes the result that `submit_rgb` kept for `frame_slot`. Fails if there
    /// is none: nothing was submitted, or it was taken already.
    pub fn finish_rgb(&mut self, frame_slot: usize) -> (res: Result<
        RgbPlanes<M::Sample>,
        TransformError,
    >)
        ensures
            finished(*old(self), frame_slot, res, *final(self)),
    {
        if frame_slot >= 2 {
            return Err(TransformError::NoSuchSlot { call: SlotCall::Finish, slot: frame_slot });
        }
        proof {
            use_type_invariant(&*self);
        }
        let mut kept: Option<RgbPlanes<M::Sample>> = None;
        if frame_slot == 0 {
            std::mem::swap(&mut kept, &mut self.slot_0);
        } else {
            std::mem::swap(&mut kept, &mut self.slot_1);
        }
        match kept {
            Some(out) => Ok(out),
            None => Err(TransformError::NothingStashed),
        }
    }
}

/// Neither the arithmetic nor what waits in the slots changed.
pub open spec fn same_slots<M: PlaneMath>(before: DctCpu<M>, after: DctCpu<M>) -> bool {
    &&& after.arithmetic() == before.arithmetic()
    &&& forall|slot: int| #[trigger] after.stashed(slot) == before.stashed(slot)
}

/// Why a frame is not taken into a slot, if it is not.
pub open spec fn submit_error(
    frame_slot: usize,
    r: nat,
    g: nat,
    b: nat,
    width: u32,
    height: u32,
) -> Option<TransformError> {
    if frame_slot >= 2 {
        Some(TransformError::NoSuchSlot { call: SlotCall::Submit, slot: frame_slot })
    } else {
        crate::dct_backend::rgb_error(r, g, b, width, height)
    }
}

/// `out` was put into the slot, over whatever was there.
pub open spec fn submitted<M: PlaneMath>(
    before: DctCpu<M>,
    slot: int,
    out: RgbPlanes<M::Sample>,
    after: DctCpu<M>,
) -> bool {
    &&& 0 <= slot < 2
    &&& after.arithmetic() == before.arithmetic()
    &&& after.stashed(slot) == Some(out)
    &&& forall|other: int|
        other != slot ==> #[trigger] after.stashed(other) == before.stashed(other)
}

/// What waited in the slot was taken out of it, or the reason why not.
pub open spec fn finished<M: PlaneMath>(
    before: DctCpu<M>,
    frame_slot: usize,
    res: Result<RgbPlanes<M::Sample>, TransformError>,
    after: DctCpu<M>,
) -> bool {
    let slot = frame_slot as int;
    &&& after.arithmetic() == before.arithmetic()
    &&& after.stashed(slot) is None
    &&& forall|other: int|
        other != slot ==> #[trigger] after.stashed(other) == before.stashed(other)
    &&& if slot >= 2 {
        res == Err::<RgbPlanes<M::Sample>, TransformError>(
            TransformError::NoSuchSlot { call: SlotCall::Finish, slot: frame_slot },
        )
    } else {
        match before.stashed(slot) {
            Some(out) => res == Ok::<RgbPlanes<M::Sample>, TransformError>(out),
            None => res == Err::<RgbPlanes<M::Sample>, TransformError>(
                TransformError::NothingStashed,
            ),
        }
    }
}

/// What a slot was handed is what it gives back, once.
pub proof fn law_finish_returns_what_was_submitted<M: PlaneMath>(
    before: DctCpu<M>,
    between: DctCpu<M>,
    after: DctCpu<M>,
    last: DctCpu<M>,
    slot: usize,
    out: RgbPlanes<M::Sample>,
    res: Result<RgbPlanes<M::Sample>, TransformError>,
    again: Result<RgbPlanes<M::Sample>, TransformError>,
)
    requires
        submitted(before, slot as int, out, between),
        finished(between, slot, res, after),
        finished(after, slot, again, last),
    ensures
        res == Ok::<RgbPlanes<M::Sample>, TransformError>(out),
        again == Err::<RgbPlanes<M::Sample>, TransformError>(TransformError::NothingStashed),
{
}

/// Of a backend that was handed one frame only, no slot gives anything but the
/// one that has it: not the other one, and none that does not exist.
pub proof fn law_only_the_submitted_slot_finishes<M: PlaneMath>(
    before: DctCpu<M>,
    between: DctCpu<M>,
    after: DctCpu<M>,
    slot: usize,
    asked: usize,
    out: RgbPlanes<M::Sample>,
    res: Result<RgbPlanes<M::Sample>, TransformError>,
)
    requires
        forall|empty: int| #[trigger] before.stashed(empty) is None,
        submitted(before, slot as int, out, between),
        finished(between, asked, res, after),
    ensures
        match res {
            Ok(given) => asked == slot && given == out,
            Err(e) => asked != slot && e == (if asked >= 2 {
                TransformError::NoSuchSlot { call: SlotCall::Finish, slot: asked }
            } else {
                TransformError::NothingStashed
            }),
        },
{
    assert(before.stashed(asked as int) is None);
    if asked != slot {
        assert(between.stashed(asked as int) == before.stashed(asked as int));
    }
}

/// A slot keeps the last frame it was handed: one that was still waiting there is
/// replaced.
pub proof fn law_a_slot_keeps_the_last_frame<M: PlaneMath>(
    before: DctCpu<M>,
    between: DctCpu<M>,
    after: DctCpu<M>,
    last: DctCpu<M>,
    slot: usize,
    out: RgbPlanes<M::Sample>,
    later: RgbPlanes<M::Sample>,
    res: Result<RgbPlanes<M::Sample>, TransformError>,
)
    requires
        submitted(before, slot as int, out, between),
        submitted(between, slot as int, later, after),
        finished(after, slot, res, last),
    ensures
        res == Ok::<RgbPlanes<M::Sample>, TransformError>(later),
        forall|other: int|
            other != slot ==> #[trigger] last.stashed(other) == before.stashed(other),
{
    assert forall|other: int| other != slot implies #[trigger] last.stashed(other)
        == before.stashed(other) by {
        assert(after.stashed(other) == between.stashed(other));
        assert(between.stashed(other) == before.stashed(other));
    }
}

/// A frame is refused exactly if there is no such slot, or if its planes would be
/// refused anyway; and a refusal leaves both slots as they were: what waits there
/// is still given back.
pub proof fn law_a_refused_frame_changes_nothing<M: PlaneMath>(
    before: DctCpu<M>,
    refused: DctCpu<M>,
    after: DctCpu<M>,
    slot: usize,
    out: RgbPlanes<M::Sample>,
    res: Result<RgbPlanes<M::Sample>, TransformError>,
    tried: usize,
    r: nat,
    g: nat,
    b: nat,
    width: u32,
    height: u32,
)
    requires
        slot < 2,
        before.stashed(slot as int) == Some(out),
        same_slots(before, refused),
        finished(refused, slot, res, after),
    ensures
        submit_error(tried, r, g, b, width, height) is Some <==> tried >= 2 || crate::dct_backend::rgb_error(
            r,
            g,
            b,
            width,
            height,
        ) is Some,
        res == Ok::<RgbPlanes<M::Sample>, TransformError>(out),
{
    assert(refused.stashed(slot as int) == before.stashed(slot as int));
}

/// The two slots are independent: a frame in one waits while the other is used.
pub proof fn law_slots_are_independent<M: PlaneMath>(
    before: DctCpu<M>,
    between: DctCpu<M>,
    after: DctCpu<M>,
    slot: usize,
    other: usize,
    out: RgbPlanes<M::Sample>,
    res: Result<RgbPlanes<M::Sample>, TransformError>,
)
    requires
        slot < 2,
        other < 2,
        slot != other,
        submitted(before, slot as int, out, between),
        finished(between, slot, res, after),
    ensures
        after.stashed(other as int) == before.stashed(other as int),
{
}

impl<M: PlaneMath + Sync + Send> DctBackend for DctCpu<M> {
    type Sample = M::Sample;

    type Cutoff = M::Cutoff;

    fn process_rgb(
        &mut self,
        r: &[M::Sample],
        g: &[M::Sample],
        b: &[M::Sample],
        width: u32,
        height: u32,
        cutoff: M::Cutoff,
    ) -> (res: Result<RgbPlanes<M::Sample>, TransformError>)
        ensures
            same_slots(*old(self), *final(self)),
            match res {
                Ok(out) => {
                    &&& crate::dct_backend::rgb_error(r@.len(), g@.len(), b@.len(), width, height) is None
                    &&& rgb_done(
                        &old(self).arithmetic(),
                        r@,
                        g@,
                        b@,
                        width as int,
                        height as int,
                        cutoff,
                        out,
                    )
                },
                Err(e) => crate::dct_backend::rgb_error(r@.len(), g@.len(), b@.len(), width, height) == Some(e),
            },
    {
        DctCpu::process_rgb(self, r, g, b, width, height, cutoff)
    }

    fn submit_rgb(
        &mut self,
        frame_slot: usize,
        r: &[M::Sample],
        g: &[M::Sample],
        b: &[M::Sample],
        width: u32,
        height: u32,
        cutoff: M::Cutoff,
    ) -> (res: Result<(), TransformError>)
        ensures
            match res {
                Ok(_) => submit_error(frame_slot, r@.len(), g@.len(), b@.len(), width, height) is None
                    && exists|out: RgbPlanes<M::Sample>|
                    {
                        &&& #[trigger] submitted(*old(self), frame_slot as int, out, *final(self))
                        &&& rgb_done(
                            &old(self).arithmetic(),
                            r@,
                            g@,
                            b@,
                            width as int,
                            height as int,
                            cutoff,
                            out,
                        )
                    },
                Err(e) => {
                    &&& same_slots(*old(self), *final(self))
                    &&& submit_error(frame_slot, r@.len(), g@.len(), b@.len(), width, height)
                        == Some(e)
                },
            },
    {
        DctCpu::submit_rgb(self, frame_slot, r, g, b, width, height, cutoff)
    }

    fn finish_rgb(&mut self, frame_slot: usize) -> (res: Result<
        RgbPlanes<M::Sample>,
        TransformError,
    >)
        ensures
            finished(*old(self), frame_slot, res, *final(self)),
    {
        DctCpu::finish_rgb(self, frame_slot)
    }
}

} // verus!
