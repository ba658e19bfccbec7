//! The whole-frame transform in batches along the axes, fast where an axis
//! allows it.
use crate::cpu::apply_cutoff;
use crate::dct_backend::TransformError;
use crate::dct_math::{transpose_rows, PlaneMath};
use vstd::prelude::*;

verus! {

/// The split that a plan for an axis names: a fast transform with these factors,
/// or none for a matrix multiply.
pub open spec fn split_of(factors: Option<&[usize]>) -> Option<Seq<usize>> {
    match factors {
        Some(f) => Some(f@),
        None => None,
    }
}

/// A plan can be run on an axis of length `n`: the factors are the split of that
/// length, or the basis matrix can be indexed.
pub open spec fn runnable(n: nat, factors: Option<Seq<usize>>) -> bool {
    match factors {
        Some(f) => crate::fft_plan::fft_split(n) == Some(f),
        None => n * n <= usize::MAX,
    }
}

/// What runs batches of transforms: a device. Sequences stand one behind the
/// other. Nothing is assumed of what it returns.
pub trait AxisTransform {
    /// One element of a sequence.
    type Sample;

    /// The DCT-II of `batch` sequences of length `n`: by fast transforms where
    /// there are `factors`, else by a matrix multiply.
    fn dct2(
        &self,
        x: &[Self::Sample],
        n: usize,
        factors: Option<&[usize]>,
        batch: usize,
    ) -> Result<Vec<Self::Sample>, TransformError>
        requires
            runnable(n as nat, split_of(factors)),
            x@.len() == n * batch,
    ;

    /// The DCT-III of `batch` sequences of length `n`: by fast transforms where
    /// there are `factors`, else by a matrix multiply.
    fn dct3(
        &self,
        x: &[Self::Sample],
        n: usize,
        factors: Option<&[usize]>,
        batch: usize,
    ) -> Result<Vec<Self::Sample>, TransformError>
        requires
            runnable(n as nat, split_of(factors)),
            x@.len() == n * batch,
    ;
}

/// Which of the two transforms is run.
#[derive(Debug, Clone, Copy, PartialEq, Eq, Structural)]
pub enum Direction {
    Forward,
    Inverse,
}

/// The device returned `given` for a batch.
pub open spec fn returned<D: AxisTransform>(
    device: &D,
    direction: Direction,
    x: Seq<D::Sample>,
    n: usize,
    factors: Option<Seq<usize>>,
    batch: usize,
    given: Result<Vec<D::Sample>, TransformError>,
) -> bool {
    match direction {
        Direction::Forward => exists|xs: &[D::Sample], f: Option<&[usize]>|
            {
                &&& xs@ == x
                &&& split_of(f) == factors
                &&& #[trigger] call_ensures(D::dct2, (device, xs, n, f, batch), given)
            },
        Direction::Inverse => exists|xs: &[D::Sample], f: Option<&[usize]>|
            {
                &&& xs@ == x
                &&& split_of(f) == factors
                &&& #[trigger] call_ensures(D::dct3, (device, xs, n, f, batch), given)
            },
    }
}

/// What a batch comes to: what the device returned, unless that is not a batch
/// of the same size.
pub open spec fn taken<S>(given: Result<Vec<S>, TransformError>, len: nat) -> Result<
    Seq<S>,
    TransformError,
> {
    match given {
        Ok(v) => if v@.len() == len {
            Ok(v@)
        } else {
            Err(TransformError::WrongLength { len: v@.len() as usize, expected: len as u64 })
        },
        Err(e) => Err(e),
    }
}

/// A result, the samples taken as a sequence.
pub open spec fn viewed<S>(res: Result<Vec<S>, TransformError>) -> Result<Seq<S>, TransformError> {
    match res {
        Ok(v) => Ok(v@),
        Err(e) => Err(e),
    }
}

/// A batch was run along one axis, and came to `r`.
pub open spec fn axis_step<D: AxisTransform>(
    device: &D,
    direction: Direction,
    x: Seq<D::Sample>,
    n: usize,
    factors: Option<Seq<usize>>,
    batch: usize,
    r: Result<Seq<D::Sample>, TransformError>,
) -> bool {
    exists|given: Result<Vec<D::Sample>, TransformError>|
        #[trigger] returned(device, direction, x, n, factors, batch, given) && r == taken(
            given,
            x.len(),
        )
}

/// Runs a batch along one axis.
fn run_axis<D: AxisTransform>(
    device: &D,
    direction: Direction,
    x: &[D::Sample],
    n: usize,
    factors: Option<&[usize]>,
    batch: usize,
) -> (res: Result<Vec<D::Sample>, TransformError>)
    requires
        runnable(n as nat, split_of(factors)),
        x@.len() == n * batch,
        x@.len() <= u64::MAX,
    ensures
        axis_step(device, direction, x@, n, split_of(factors), batch, viewed(res)),
        res matches Ok(v) ==> v@.len() == x@.len(),
{
    let given = match direction {
        Direction::Forward => device.dct2(x, n, factors, batch),
        Direction::Inverse => device.dct3(x, n, factors, batch),
    };
    assert(returned(device, direction, x@, n, split_of(factors), batch, given));
    match given {
        Ok(v) => {
            if v.len() == x.len() {
                Ok(v)
            } else {
                Err(TransformError::WrongLength { len: v.len(), expected: x.len() as u64 })
            }
        },
        Err(e) => Err(e),
    }
}

/// `out` is `d` with every sample held to the range of a pixel.
pub open spec fn pixels_held<M: PlaneMath>(
    m: &M,
    d: Seq<M::Sample>,
    out: Seq<M::Sample>,
) -> bool {
    &&& out.len() == d.len()
    &&& forall|i: int|
        0 <= i < d.len() ==> call_ensures(M::pixel, (m, d[i]), #[trigger] out[i])
}

/// `kept` is the plane of coefficients `b` after the cutoff.
pub open spec fn cut_plane<M: PlaneMath>(
    m: &M,
    t: M::Threshold,
    w: int,
    h: int,
    b: Seq<M::Sample>,
    kept: Seq<M::Sample>,
) -> bool {
    &&& kept.len() == w * h
    &&& forall|x: int, y: int|
        0 <= x < w && 0 <= y < h ==> #[trigger] crate::cpu::cut_cell(
            m,
            t,
            w,
            h,
            x,
            y,
            b[y * w + x],
            kept[y * w + x],
        )
}

/// The inverse transform of the rows of `c`, and the pixels.
pub open spec fn rows_back<M: PlaneMath, D: AxisTransform<Sample = M::Sample>>(
    m: &M,
    device: &D,
    c: Seq<M::Sample>,
    w: usize,
    h: usize,
    row_factors: Option<Seq<usize>>,
    res: Result<Seq<M::Sample>, TransformError>,
) -> bool {
    exists|r: Result<Seq<M::Sample>, TransformError>|
        {
            &&& #[trigger] axis_step(device, Direction::Inverse, c, w, row_factors, h, r)
            &&& match r {
                Ok(d) => res matches Ok(out) && pixels_held(m, d, out),
                Err(e) => res matches Err(error) && error == e,
            }
        }
}

/// The inverse transform of the columns of `kept`, and what follows.
pub open spec fn columns_back<M: PlaneMath, D: AxisTransform<Sample = M::Sample>>(
    m: &M,
    device: &D,
    kept: Seq<M::Sample>,
    w: usize,
    h: usize,
    row_factors: Option<Seq<usize>>,
    col_factors: Option<Seq<usize>>,
    res: Result<Seq<M::Sample>, TransformError>,
) -> bool {
    exists|r: Result<Seq<M::Sample>, TransformError>|
        {
            &&& #[trigger] axis_step(
                device,
                Direction::Inverse,
                crate::dct_math::turned_over(kept, w as int, h as int),
                h,
                col_factors,
                w,
                r,
            )
            &&& match r {
                Ok(c) => rows_back(
                    m,
                    device,
                    crate::dct_math::turned_over(c, h as int, w as int),
                    w,
                    h,
                    row_factors,
                    res,
                ),
                Err(e) => res matches Err(error) && error == e,
            }
        }
}

/// The cutoff of the coefficients `b`, and what follows.
pub open spec fn cut_and_back<M: PlaneMath, D: AxisTransform<Sample = M::Sample>>(
    m: &M,
    device: &D,
    b: Seq<M::Sample>,
    w: usize,
    h: usize,
    row_factors: Option<Seq<usize>>,
    col_factors: Option<Seq<usize>>,
    t: M::Threshold,
    res: Result<Seq<M::Sample>, TransformError>,
) -> bool {
    exists|kept: Seq<M::Sample>|
        {
            &&& #[trigger] cut_plane(m, t, w as int, h as int, b, kept)
            &&& columns_back(m, device, kept, w, h, row_factors, col_factors, res)
        }
}

/// The forward transform of the columns of `a`, the cutoff, and what follows.
pub open spec fn columns_forth<M: PlaneMath, D: AxisTransform<Sample = M::Sample>>(
    m: &M,
    device: &D,
    a: Seq<M::Sample>,
    w: usize,
    h: usize,
    row_factors: Option<Seq<usize>>,
    col_factors: Option<Seq<usize>>,
    t: M::Threshold,
    res: Result<Seq<M::Sample>, TransformError>,
) -> bool {
    exists|r: Result<Seq<M::Sample>, TransformError>|
        {
            &&& #[trigger] axis_step(
                device,
                Direction::Forward,
                crate::dct_math::turned_over(a, w as int, h as int),
                h,
                col_factors,
                w,
                r,
            )
            &&& match r {
                Ok(b) => cut_and_back(
                    m,
                    device,
                    crate::dct_math::turned_over(b, h as int, w as int),
                    w,
                    h,
                    row_factors,
                    col_factors,
                    t,
                    res,
                ),
                Err(e) => res matches Err(error) && error == e,
            }
        }
}

/// The plane `pixels` after the forward transform, the cutoff and the inverse
/// transform, all by the device; or the error of the first batch that failed.
pub open spec fn plane_by_device<M: PlaneMath, D: AxisTransform<Sample = M::Sample>>(
    m: &M,
    device: &D,
    pixels: Seq<M::Sample>,
    w: usize,
    h: usize,
    row_factors: Option<Seq<usize>>,
    col_factors: Option<Seq<usize>>,
    t: M::Threshold,
    res: Result<Seq<M::Sample>, TransformError>,
) -> bool {
    exists|r: Result<Seq<M::Sample>, TransformError>|
        {
            &&& #[trigger] axis_step(device, Direction::Forward, pixels, w, row_factors, h, r)
            &&& match r {
                Ok(a) => columns_forth(
                    m,
                    device,
                    a,
                    w,
                    h,
                    row_factors,
                    col_factors,
                    t,
                    res,
                ),
                Err(e) => res matches Err(error) && error == e,
            }
        }
}

/// Transforms the rows of `c` back, and holds them to pixels.
fn rows_to_pixels<M: PlaneMath, D: AxisTransform<Sample = M::Sample>>(
    m: &M,
    device: &D,
    c: &[M::Sample],
    w: usize,
    h: usize,
    row_factors: Option<&[usize]>,
) -> (res: Result<Vec<M::Sample>, TransformError>)
    requires
        runnable(w as nat, split_of(row_factors)),
        c@.len() == w * h,
        c@.len() <= u64::MAX,
    ensures
        rows_back(m, device, c@, w, h, split_of(row_factors), viewed(res)),
{
    let given = run_axis(device, Direction::Inverse, c, w, row_factors, h);
    assert(axis_step(device, Direction::Inverse, c@, w, split_of(row_factors), h, viewed(given)));
    let d = match given {
        Ok(d) => d,
        Err(e) => return Err(e),
    };
    let mut out: Vec<M::Sample> = Vec::with_capacity(d.len());
    let mut i: usize = 0;
    while i < d.len()
        invariant
            i <= d@.len(),
            out@.len() == i,
            forall|k: int| 0 <= k < i ==> call_ensures(M::pixel, (m, d@[k]), #[trigger] out@[k]),
        decreases d@.len() - i,
    {
        out.push(m.pixel(d[i]));
        i = i + 1;
    }
    assert(pixels_held(m, d@, out@));
    Ok(out)
}

/// Transforms the columns of `kept` back, and then the rows.
fn columns_to_pixels<M: PlaneMath, D: AxisTransform<Sample = M::Sample>>(
    m: &M,
    device: &D,
    kept: &[M::Sample],
    w: usize,
    h: usize,
    row_factors: Option<&[usize]>,
    col_factors: Option<&[usize]>,
) -> (res: Result<Vec<M::Sample>, TransformError>)
    requires
        runnable(w as nat, split_of(row_factors)),
        runnable(h as nat, split_of(col_factors)),
        kept@.len() == w * h,
        kept@.len() <= u64::MAX,
    ensures
        columns_back(m, device, kept@, w, h, split_of(row_factors), split_of(col_factors), viewed(res)),
{
    assert(h * w == w * h) by (nonlinear_arith);
    let turned = transpose_rows(kept, w, h);
    let given = run_axis(device, Direction::Inverse, turned.as_slice(), h, col_factors, w);
    assert(axis_step(
        device,
        Direction::Inverse,
        turned@,
        h,
        split_of(col_factors),
        w,
        viewed(given),
    ));
    match given {
        Ok(c) => {
            let rows = transpose_rows(c.as_slice(), h, w);
            rows_to_pixels(m, device, rows.as_slice(), w, h, row_factors)
        },
        Err(e) => Err(e),
    }
}

/// Transforms the columns of `a`, drops what is beyond the threshold, and
/// transforms back.
fn columns_forth_and_back<M: PlaneMath, D: AxisTransform<Sample = M::Sample>>(
    m: &M,
    device: &D,
    a: &[M::Sample],
    w: usize,
    h: usize,
    row_factors: Option<&[usize]>,
    col_factors: Option<&[usize]>,
    t: M::Threshold,
) -> (res: Result<Vec<M::Sample>, TransformError>)
    requires
        runnable(w as nat, split_of(row_factors)),
        runnable(h as nat, split_of(col_factors)),
        a@.len() == w * h,
        a@.len() <= u64::MAX,
    ensures
        columns_forth(m, device, a@, w, h, split_of(row_factors), split_of(col_factors), t, viewed(res)),
{
    assert(h * w == w * h) by (nonlinear_arith);
    let turned = transpose_rows(a, w, h);
    let given = run_axis(device, Direction::Forward, turned.as_slice(), h, col_factors, w);
    assert(axis_step(
        device,
        Direction::Forward,
        turned@,
        h,
        split_of(col_factors),
        w,
        viewed(given),
    ));
    match given {
        Ok(b) => {
            let coefficients = transpose_rows(b.as_slice(), h, w);
            let kept = apply_cutoff(m, coefficients.as_slice(), w, h, t);
            assert(cut_plane(m, t, w as int, h as int, coefficients@, kept@));
            let res = columns_to_pixels(
                m,
                device,
                kept.as_slice(),
                w,
                h,
                row_factors,
                col_factors,
            );
            assert(cut_and_back(
                m,
                device,
                coefficients@,
                w,
                h,
                split_of(row_factors),
                split_of(col_factors),
                t,
                viewed(res),
            ));
            res
        },
        Err(e) => Err(e),
    }
}

/// Transforms a plane by batches: along the rows, along the columns, the cutoff,
/// and back, each axis by its own plan. Columns are turned into rows for the
/// device.
pub fn plane_by_axes<M: PlaneMath, D: AxisTransform<Sample = M::Sample>>(
    m: &M,
    device: &D,
    pixels: &[M::Sample],
    w: usize,
    h: usize,
    row_factors: Option<&[usize]>,
    col_factors: Option<&[usize]>,
    cutoff: M::Cutoff,
) -> (res: Result<Vec<M::Sample>, TransformError>)
    requires
        runnable(w as nat, split_of(row_factors)),
        runnable(h as nat, split_of(col_factors)),
        pixels@.len() == w * h,
        pixels@.len() <= u64::MAX,
    ensures
        exists|t: M::Threshold|
            {
                &&& #[trigger] call_ensures(M::threshold, (m, cutoff), t)
                &&& plane_by_device(
                    m,
                    device,
                    pixels@,
                    w,
                    h,
                    split_of(row_factors),
                    split_of(col_factors),
                    t,
                    viewed(res),
                )
            },
{
    let t = m.threshold(cutoff);
    let given = run_axis(device, Direction::Forward, pixels, w, row_factors, h);
    assert(axis_step(device, Direction::Forward, pixels@, w, split_of(row_factors), h, viewed(given)));
    match given {
        Ok(a) => columns_forth_and_back(
            m,
            device,
            a.as_slice(),
            w,
            h,
            row_factors,
            col_factors,
            t,
        ),
        Err(e) => Err(e),
    }
}

} // verus!
