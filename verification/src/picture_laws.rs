//! What becomes of a picture: which of its frequencies survive, end to end, where
//! the arithmetic is exact.
use crate::cpu::DctCpu;
use crate::dct_backend::{DctBackend, RgbPlanes, TransformError};
use crate::dct_math::PlaneMath;
use vstd::prelude::*;

verus! {

/// The frequency of coefficient `x` of `n` along an axis: 0 for the first one, 1
/// for the last, and in even steps between them.
pub open spec fn frequency(x: int, n: nat) -> real {
    if n <= 1 {
        0 as real
    } else {
        x as real / (n - 1) as real
    }
}

/// The arithmetic compares ranks exactly: the quotients add up to more than what
/// the cutoff stands for.
pub open spec fn compares<M: PlaneMath>(m: &M, cut: spec_fn(M::Cutoff) -> real) -> bool {
    forall|
        cutoff: M::Cutoff,
        t: M::Threshold,
        x: usize,
        dx: usize,
        y: usize,
        dy: usize,
        beyond: bool,
    |
        #![trigger call_ensures(M::threshold, (m, cutoff), t), call_ensures(M::beyond, (m, t, x, dx, y, dy), beyond)]
        {
            &&& call_ensures(M::threshold, (m, cutoff), t)
            &&& call_ensures(M::beyond, (m, t, x, dx, y, dy), beyond)
            &&& dx > 0
            &&& dy > 0
        } ==> (beyond <==> x as int as real / dx as int as real + y as int as real / dy as int as real
            > cut(cutoff))
}

/// The arithmetic has the orthonormal cosines of length `n`: function `k` at
/// position `i`.
pub open spec fn gives_cosines<M: PlaneMath>(
    m: &M,
    val: spec_fn(M::Sample) -> real,
    c: spec_fn(int) -> real,
    flat: real,
    wave: real,
    n: nat,
) -> bool {
    &&& crate::cosine_laws::is_cosine(c, n as int)
    &&& flat * flat * n as real == 1 as real
    &&& wave * wave * n as real == 2 as real
    &&& forall|k: usize, i: usize, e: M::Sample|
        #![trigger call_ensures(M::basis_entry, (m, k, i, n as usize), e)]
        call_ensures(M::basis_entry, (m, k, i, n as usize), e) && k < n && i < n ==> val(e)
            == crate::basis_laws::cosine_entry(c, flat, wave, k as int, i as int)
}

/// `out` is the picture `p` without the frequencies beyond `cut`: it is some plane
/// held to the range of a pixel, and each coefficient of that plane is the
/// picture's own up to `cut`, the frequencies along both axes taken together, and
/// zero beyond.
pub open spec fn low_frequencies<S>(
    val: spec_fn(S) -> real,
    rows: spec_fn(int, int) -> real,
    cols: spec_fn(int, int) -> real,
    cut: real,
    p: spec_fn(int, int) -> real,
    w: nat,
    h: nat,
    out: Seq<S>,
) -> bool {
    &&& out.len() == w * h
    &&& exists|f: spec_fn(int, int) -> real|
        {
            &&& #[trigger] survivors(rows, cols, cut, p, w, h, f)
            &&& forall|x: int, y: int|
                0 <= x < w && 0 <= y < h ==> val(#[trigger] out[y * w + x])
                    == crate::plane_laws::held(f(x, y))
        }
}

/// The coefficients of `f` are those of `p` that lie within `cut`.
pub open spec fn survivors(
    rows: spec_fn(int, int) -> real,
    cols: spec_fn(int, int) -> real,
    cut: real,
    p: spec_fn(int, int) -> real,
    w: nat,
    h: nat,
    f: spec_fn(int, int) -> real,
) -> bool {
    forall|x: int, y: int|
        0 <= x < w && 0 <= y < h ==> #[trigger] crate::energy_laws::coefficient(
            f,
            rows,
            cols,
            w,
            h,
            x,
            y,
        ) == (if frequency(x, w) + frequency(y, h) <= cut {
            crate::energy_laws::coefficient(p, rows, cols, w, h, x, y)
        } else {
            0 as real
        })
}

/// The first coefficient along an axis has frequency 0, the last frequency 1, and
/// a frequency is measured in just that: the index of the last coefficient.
pub proof fn law_last_coefficient_has_frequency_one(n: nat)
    requires
        n >= 2,
    ensures
        crate::cpu::rank_denominator(n as int) == n - 1,
        frequency(0, n) == 0 as real,
        frequency(n - 1, n) == 1 as real,
        forall|x: int| 0 <= x < n - 1 ==> #[trigger] frequency(x, n) < frequency(x + 1, n),
{
    let d = (n - 1) as real;
    assert(d > 0 as real);
    assert((0 as real) / d == 0 as real) by (nonlinear_arith)
        requires
            d > 0 as real,
    ;
    assert(d / d == 1 as real) by (nonlinear_arith)
        requires
            d > 0 as real,
    ;
    assert forall|x: int| 0 <= x < n - 1 implies #[trigger] frequency(x, n) < frequency(x + 1, n) by {
        let (a, b) = (x as real, (x + 1) as real);
        assert(a / d < b / d) by (nonlinear_arith)
            requires
                a < b,
                d > 0 as real,
        ;
    }
}

/// A rank is the frequency.
proof fn lemma_rank(x: int, n: nat)
    requires
        0 <= x < n,
    ensures
        x as real / crate::cpu::rank_denominator(n as int) as real == frequency(x, n),
{
    if n == 1 {
        assert((0 as real) / (1 as real) == 0 as real) by (nonlinear_arith);
    }
}

/// A mask that compares exactly keeps what lies within the cutoff, and drops the
/// rest.
proof fn lemma_mask<M: PlaneMath>(
    m: &M,
    cut: spec_fn(M::Cutoff) -> real,
    cutoff: M::Cutoff,
    t: M::Threshold,
    w: nat,
    h: nat,
    x: int,
    y: int,
)
    requires
        compares(m, cut),
        call_ensures(M::threshold, (m, cutoff), t),
        w <= u32::MAX,
        h <= u32::MAX,
        0 <= x < w,
        0 <= y < h,
    ensures
        if frequency(x, w) + frequency(y, h) <= cut(cutoff) {
            crate::plane_laws::kept(m, t, w as int, h as int, x, y)
        } else {
            crate::plane_laws::dropped(m, t, w as int, h as int, x, y)
        },
{
    lemma_rank(x, w);
    lemma_rank(y, h);
    crate::plane_laws::law_rank_is_at_most_two(w as int, h as int, x, y);
    let (dx, dy) = (crate::cpu::rank_denominator(w as int), crate::cpu::rank_denominator(h as int));
    assert((x as usize) as int == x && (y as usize) as int == y);
    assert((dx as usize) as int == dx && (dy as usize) as int == dy);
}

/// The matrices that an arithmetic with cosines gives are those of the cosines.
proof fn lemma_has_cosines<M: PlaneMath>(
    m: &M,
    val: spec_fn(M::Sample) -> real,
    c: spec_fn(int) -> real,
    flat: real,
    wave: real,
    n: nat,
    b: Seq<M::Sample>,
)
    requires
        gives_cosines(m, val, c, flat, wave, n),
        n <= u32::MAX,
        crate::dct_math::is_basis(m, n as int, b),
    ensures
        crate::energy_laws::serves(val, b, crate::energy_laws::cosines(c, flat, wave), n),
{
    assert forall|k: int, i: int| 0 <= k < n && 0 <= i < n implies #[trigger] crate::plane_laws::entry(
        val,
        b,
        n as int,
        k,
        i,
    ) == crate::cosine_laws::scale(flat, wave, k) * c((2 * i + 1) * k) by {
        assert(crate::dct_math::basis_cell(m, n as int, b, k, i));
        assert((k as usize) as int == k && (i as usize) as int == i);
    }
    crate::energy_laws::lemma_cosine_basis(val, c, flat, wave, b, n);
}

/// The coefficients of what was rebuilt are those it was rebuilt from.
proof fn lemma_rebuilt_coefficient<M: PlaneMath>(
    m: &M,
    val: spec_fn(M::Sample) -> real,
    w: nat,
    h: nat,
    rows: Seq<M::Sample>,
    cols: Seq<M::Sample>,
    er: spec_fn(int, int) -> real,
    ec: spec_fn(int, int) -> real,
    b: Seq<M::Sample>,
    c: Seq<M::Sample>,
    x: int,
    y: int,
)
    requires
        crate::plane_laws::exact(m, val),
        crate::energy_laws::serves(val, rows, er, w),
        crate::energy_laws::serves(val, cols, ec, h),
        crate::cpu::column_pass(
            m,
            b,
            w as int,
            h as int,
            crate::dct_math::transposed(cols, h as int),
            None,
            c,
        ),
        0 <= x < w,
        0 <= y < h,
    ensures
        crate::energy_laws::coefficient(
            crate::energy_laws::rebuilt_plane(val, rows, c, w),
            er,
            ec,
            w,
            h,
            x,
            y,
        ) == crate::plane_laws::entry(val, b, w as int, y, x),
{
    let (wi, hi) = (w as int, h as int);
    let f = crate::energy_laws::rebuilt_plane(val, rows, c, w);
    let s = |k: int| crate::plane_laws::entry(val, b, wi, k, x);
    let there = |j: int| crate::sums::total(|i: int| f(i, j) * er(x, i), w) * ec(y, j);
    let back = |j: int|
        crate::energy_laws::rebuilt_at(val, cols, h, s, j) * crate::plane_laws::entry(
            val,
            cols,
            hi,
            y,
            j,
        );
    assert forall|j: int| 0 <= j < h implies #[trigger] there(j) == back(j) by {
        let sj = |k: int| crate::plane_laws::entry(val, c, wi, j, k);
        crate::energy_laws::lemma_coefficient(val, rows, w, sj, x);
        let one = |i: int| f(i, j) * er(x, i);
        let two = |i: int|
            crate::energy_laws::rebuilt_at(val, rows, w, sj, i) * crate::plane_laws::entry(
                val,
                rows,
                wi,
                x,
                i,
            );
        assert forall|i: int| 0 <= i < w implies #[trigger] one(i) == two(i) by {
            assert(crate::plane_laws::entry(val, rows, wi, x, i) == er(x, i));
        }
        crate::sums::lemma_total_equal(one, two, w);
        crate::energy_laws::lemma_columns_rebuilt(m, val, w, h, cols, b, c, x, j);
        assert(crate::plane_laws::entry(val, cols, hi, y, j) == ec(y, j));
    }
    crate::sums::lemma_total_equal(there, back, h);
    crate::energy_laws::lemma_coefficient(val, cols, h, s, y);
}

/// Whichever backend transformed a plane, in exact arithmetic what comes out is
/// the picture without the frequencies beyond the cutoff.
pub proof fn law_transformed_plane_keeps_low_frequencies<M: PlaneMath>(
    m: &M,
    val: spec_fn(M::Sample) -> real,
    cut: spec_fn(M::Cutoff) -> real,
    cw: spec_fn(int) -> real,
    ch: spec_fn(int) -> real,
    flat_w: real,
    wave_w: real,
    flat_h: real,
    wave_h: real,
    pixels: Seq<M::Sample>,
    w: nat,
    h: nat,
    cutoff: M::Cutoff,
    out: Seq<M::Sample>,
)
    requires
        crate::plane_laws::exact(m, val),
        compares(m, cut),
        gives_cosines(m, val, cw, flat_w, wave_w, w),
        gives_cosines(m, val, ch, flat_h, wave_h, h),
        0 < w <= u32::MAX,
        0 < h <= u32::MAX,
        crate::cpu::plane_done(m, pixels, w as int, h as int, cutoff, out),
    ensures
        low_frequencies(
            val,
            crate::energy_laws::cosines(cw, flat_w, wave_w),
            crate::energy_laws::cosines(ch, flat_h, wave_h),
            cut(cutoff),
            crate::energy_laws::numbers(val, pixels, w),
            w,
            h,
            out,
        ),
{
    let (wi, hi) = (w as int, h as int);
    let (er, ec) = (
        crate::energy_laws::cosines(cw, flat_w, wave_w),
        crate::energy_laws::cosines(ch, flat_h, wave_h),
    );
    let p = crate::energy_laws::numbers(val, pixels, w);
    let (rows, cols, t, a, b, c) = choose|
        rows: Seq<M::Sample>,
        cols: Seq<M::Sample>,
        t: M::Threshold,
        a: Seq<M::Sample>,
        b: Seq<M::Sample>,
        c: Seq<M::Sample>,
    |
        #[trigger] crate::cpu::plane_steps(m, pixels, wi, hi, cutoff, rows, cols, t, a, b, c, out);
    lemma_has_cosines(m, val, cw, flat_w, wave_w, w, rows);
    lemma_has_cosines(m, val, ch, flat_h, wave_h, h, cols);
    crate::energy_laws::lemma_plane_rebuilt(m, val, w, h, rows, cols, b, c, out);
    let f = crate::energy_laws::rebuilt_plane(val, rows, c, w);
    assert forall|x: int, y: int| 0 <= x < w && 0 <= y < h implies
        #[trigger] crate::energy_laws::coefficient(f, er, ec, w, h, x, y) == (if frequency(x, w)
        + frequency(y, h) <= cut(cutoff) {
        crate::energy_laws::coefficient(p, er, ec, w, h, x, y)
    } else {
        0 as real
    }) by {
        lemma_rebuilt_coefficient(m, val, w, h, rows, cols, er, ec, b, c, x, y);
        lemma_mask(m, cut, cutoff, t, w, h, x, y);
        crate::energy_laws::lemma_kept_or_zero(
            m, val, pixels, w, h, rows, cols, er, ec, t, a, b, x, y,
        );
    }
    assert(survivors(er, ec, cut(cutoff), p, w, h, f));
    assert forall|x: int, y: int| 0 <= x < w && 0 <= y < h implies val(#[trigger] out[y * w + x])
        == crate::plane_laws::held(f(x, y)) by {}
}

/// The error names what is wrong with a plane: its size where it has no pixels,
/// else its length and the one that its size asks for.
pub open spec fn names_the_fault(e: TransformError, len: nat, width: u32, height: u32) -> bool {
    if width == 0 || height == 0 {
        e == (TransformError::ZeroDimension { width, height })
    } else {
        e is WrongLength && e->len == len && e->expected == width * height
    }
}

/// The first length of the three that is not what the size asks for.
pub open spec fn first_bad(r: nat, g: nat, b: nat, width: u32, height: u32) -> nat {
    if r != width * height {
        r
    } else if g != width * height {
        g
    } else {
        b
    }
}

/// Lengths and sizes fit the fields of an error.
proof fn lemma_fields(r: nat, g: nat, b: nat, width: u32, height: u32)
    requires
        r <= usize::MAX,
        g <= usize::MAX,
        b <= usize::MAX,
    ensures
        crate::dct_backend::plane_error(r, width, height) matches Some(e) ==> names_the_fault(
            e,
            r,
            width,
            height,
        ),
        crate::dct_backend::rgb_error(r, g, b, width, height) matches Some(e) ==> names_the_fault(
            e,
            first_bad(r, g, b, width, height),
            width,
            height,
        ),
{
    assert(width * height <= u64::MAX) by (nonlinear_arith)
        requires
            width <= u32::MAX,
            height <= u32::MAX,
    ;
}

/// Processing a plane: one without pixels, or with another number of them than its
/// size says, is turned down, and any other is not. In exact arithmetic, what
/// comes out is the picture without the frequencies beyond the cutoff: coefficient
/// `(x, y)` survives if and only if `x / (width - 1) + y / (height - 1)` is at most
/// the cutoff.
pub proof fn law_process_plane_keeps_low_frequencies<M: PlaneMath + Sync>(
    m: M,
    val: spec_fn(M::Sample) -> real,
    cut: spec_fn(M::Cutoff) -> real,
    cw: spec_fn(int) -> real,
    ch: spec_fn(int) -> real,
    flat_w: real,
    wave_w: real,
    flat_h: real,
    wave_h: real,
    pixels: &[M::Sample],
    width: u32,
    height: u32,
    cutoff: M::Cutoff,
    res: Result<Vec<M::Sample>, TransformError>,
)
    requires
        crate::plane_laws::exact(&m, val),
        compares(&m, cut),
        gives_cosines(&m, val, cw, flat_w, wave_w, width as nat),
        gives_cosines(&m, val, ch, flat_h, wave_h, height as nat),
    ensures
        forall|cpu: &mut DctCpu<M>|
            (*cpu).arithmetic() == m && #[trigger] call_ensures(
                DctCpu::<M>::process_plane,
                (cpu, pixels, width, height, cutoff),
                res,
            ) ==> {
                &&& res is Ok <==> width > 0 && height > 0 && pixels@.len() == width * height
                &&& res matches Err(e) ==> names_the_fault(e, pixels@.len(), width, height)
                &&& res matches Ok(out) ==> low_frequencies(
                    val,
                    crate::energy_laws::cosines(cw, flat_w, wave_w),
                    crate::energy_laws::cosines(ch, flat_h, wave_h),
                    cut(cutoff),
                    crate::energy_laws::numbers(val, pixels@, width as nat),
                    width as nat,
                    height as nat,
                    out@,
                )
                &&& (*final(cpu)).arithmetic() == m
                &&& forall|slot: int|
                    #[trigger] (*final(cpu)).stashed(slot) == (*cpu).stashed(slot)
            },
{
    assert(pixels@.len() == pixels.len());
    lemma_fields(pixels@.len(), pixels@.len(), pixels@.len(), width, height);
    assert forall|cpu: &mut DctCpu<M>|
        (*cpu).arithmetic() == m && #[trigger] call_ensures(
            DctCpu::<M>::process_plane,
            (cpu, pixels, width, height, cutoff),
            res,
        ) && res is Ok implies low_frequencies(
        val,
        crate::energy_laws::cosines(cw, flat_w, wave_w),
        crate::energy_laws::cosines(ch, flat_h, wave_h),
        cut(cutoff),
        crate::energy_laws::numbers(val, pixels@, width as nat),
        width as nat,
        height as nat,
        res->Ok_0@,
    ) by {
        law_transformed_plane_keeps_low_frequencies(
            &m,
            val,
            cut,
            cw,
            ch,
            flat_w,
            wave_w,
            flat_h,
            wave_h,
            pixels@,
            width as nat,
            height as nat,
            cutoff,
            res->Ok_0@,
        );
    }
}

/// Each channel of a frame comes out as the low frequencies of that channel, red
/// of red, green of green and blue of blue.
pub open spec fn frame_low_frequencies<S>(
    val: spec_fn(S) -> real,
    rows: spec_fn(int, int) -> real,
    cols: spec_fn(int, int) -> real,
    cut: real,
    r: Seq<S>,
    g: Seq<S>,
    b: Seq<S>,
    w: nat,
    h: nat,
    out: RgbPlanes<S>,
) -> bool {
    &&& low_frequencies(val, rows, cols, cut, crate::energy_laws::numbers(val, r, w), w, h, out.r@)
    &&& low_frequencies(val, rows, cols, cut, crate::energy_laws::numbers(val, g, w), w, h, out.g@)
    &&& low_frequencies(val, rows, cols, cut, crate::energy_laws::numbers(val, b, w), w, h, out.b@)
}

/// A frame is taken exactly if each of its three planes is, and each channel keeps
/// its own low frequencies.
pub proof fn law_process_rgb_keeps_low_frequencies<M: PlaneMath + Sync>(
    m: M,
    val: spec_fn(M::Sample) -> real,
    cut: spec_fn(M::Cutoff) -> real,
    cw: spec_fn(int) -> real,
    ch: spec_fn(int) -> real,
    flat_w: real,
    wave_w: real,
    flat_h: real,
    wave_h: real,
    r: &[M::Sample],
    g: &[M::Sample],
    b: &[M::Sample],
    width: u32,
    height: u32,
    cutoff: M::Cutoff,
    res: Result<RgbPlanes<M::Sample>, TransformError>,
)
    requires
        crate::plane_laws::exact(&m, val),
        compares(&m, cut),
        gives_cosines(&m, val, cw, flat_w, wave_w, width as nat),
        gives_cosines(&m, val, ch, flat_h, wave_h, height as nat),
    ensures
        forall|cpu: &mut DctCpu<M>|
            (*cpu).arithmetic() == m && #[trigger] call_ensures(
                DctCpu::<M>::process_rgb,
                (cpu, r, g, b, width, height, cutoff),
                res,
            ) ==> {
                &&& res is Ok <==> width > 0 && height > 0 && r@.len() == width * height && g@.len()
                    == width * height && b@.len() == width * height
                &&& res matches Err(e) ==> names_the_fault(
                    e,
                    first_bad(r@.len(), g@.len(), b@.len(), width, height),
                    width,
                    height,
                )
                &&& res matches Ok(out) ==> frame_low_frequencies(
                    val,
                    crate::energy_laws::cosines(cw, flat_w, wave_w),
                    crate::energy_laws::cosines(ch, flat_h, wave_h),
                    cut(cutoff),
                    r@,
                    g@,
                    b@,
                    width as nat,
                    height as nat,
                    out,
                )
            },
{
    assert(r@.len() == r.len() && g@.len() == g.len() && b@.len() == b.len());
    lemma_fields(r@.len(), g@.len(), b@.len(), width, height);
    assert forall|cpu: &mut DctCpu<M>|
        (*cpu).arithmetic() == m && #[trigger] call_ensures(
            DctCpu::<M>::process_rgb,
            (cpu, r, g, b, width, height, cutoff),
            res,
        ) && res is Ok implies frame_low_frequencies(
        val,
        crate::energy_laws::cosines(cw, flat_w, wave_w),
        crate::energy_laws::cosines(ch, flat_h, wave_h),
        cut(cutoff),
        r@,
        g@,
        b@,
        width as nat,
        height as nat,
        res->Ok_0,
    ) by {
        lemma_frame(
            m,
            val,
            cut,
            cw,
            ch,
            flat_w,
            wave_w,
            flat_h,
            wave_h,
            r@,
            g@,
            b@,
            width,
            height,
            cutoff,
            res->Ok_0,
        );
    }
}

/// Three planes that were done are low frequencies.
proof fn lemma_frame<M: PlaneMath>(
    m: M,
    val: spec_fn(M::Sample) -> real,
    cut: spec_fn(M::Cutoff) -> real,
    cw: spec_fn(int) -> real,
    ch: spec_fn(int) -> real,
    flat_w: real,
    wave_w: real,
    flat_h: real,
    wave_h: real,
    r: Seq<M::Sample>,
    g: Seq<M::Sample>,
    b: Seq<M::Sample>,
    width: u32,
    height: u32,
    cutoff: M::Cutoff,
    out: RgbPlanes<M::Sample>,
)
    requires
        crate::plane_laws::exact(&m, val),
        compares(&m, cut),
        gives_cosines(&m, val, cw, flat_w, wave_w, width as nat),
        gives_cosines(&m, val, ch, flat_h, wave_h, height as nat),
        width > 0,
        height > 0,
        crate::cpu::rgb_done(&m, r, g, b, width as int, height as int, cutoff, out),
    ensures
        frame_low_frequencies(
            val,
            crate::energy_laws::cosines(cw, flat_w, wave_w),
            crate::energy_laws::cosines(ch, flat_h, wave_h),
            cut(cutoff),
            r,
            g,
            b,
            width as nat,
            height as nat,
            out,
        ),
{
    let (w, h) = (width as nat, height as nat);
    law_transformed_plane_keeps_low_frequencies(
        &m, val, cut, cw, ch, flat_w, wave_w, flat_h, wave_h, r, w, h, cutoff, out.r@,
    );
    law_transformed_plane_keeps_low_frequencies(
        &m, val, cut, cw, ch, flat_w, wave_w, flat_h, wave_h, g, w, h, cutoff, out.g@,
    );
    law_transformed_plane_keeps_low_frequencies(
        &m, val, cut, cw, ch, flat_w, wave_w, flat_h, wave_h, b, w, h, cutoff, out.b@,
    );
}

/// A frame that is handed to one of the two slots waits there as the low
/// frequencies of its channels, and the other slot is left alone; a frame that is
/// turned down, or handed to another slot, changes neither.
pub proof fn law_submitted_frame_waits_transformed<M: PlaneMath + Sync>(
    m: M,
    val: spec_fn(M::Sample) -> real,
    cut: spec_fn(M::Cutoff) -> real,
    cw: spec_fn(int) -> real,
    ch: spec_fn(int) -> real,
    flat_w: real,
    wave_w: real,
    flat_h: real,
    wave_h: real,
    slot: usize,
    r: &[M::Sample],
    g: &[M::Sample],
    b: &[M::Sample],
    width: u32,
    height: u32,
    cutoff: M::Cutoff,
    res: Result<(), TransformError>,
)
    requires
        crate::plane_laws::exact(&m, val),
        compares(&m, cut),
        gives_cosines(&m, val, cw, flat_w, wave_w, width as nat),
        gives_cosines(&m, val, ch, flat_h, wave_h, height as nat),
    ensures
        forall|cpu: &mut DctCpu<M>|
            (*cpu).arithmetic() == m && #[trigger] call_ensures(
                DctCpu::<M>::submit_rgb,
                (cpu, slot, r, g, b, width, height, cutoff),
                res,
            ) ==> {
                &&& res is Ok <==> slot < 2 && width > 0 && height > 0 && r@.len() == width * height
                    && g@.len() == width * height && b@.len() == width * height
                &&& res matches Err(e) ==> if slot >= 2 {
                    e is NoSuchSlot && e->call is Submit && e->slot == slot
                } else {
                    names_the_fault(
                        e,
                        first_bad(r@.len(), g@.len(), b@.len(), width, height),
                        width,
                        height,
                    )
                }
                &&& forall|other: int|
                    other != slot || res is Err ==> #[trigger] (*final(cpu)).stashed(other)
                        == (*cpu).stashed(other)
                &&& res is Ok ==> (*final(cpu)).stashed(slot as int) is Some
                    && frame_low_frequencies(
                    val,
                    crate::energy_laws::cosines(cw, flat_w, wave_w),
                    crate::energy_laws::cosines(ch, flat_h, wave_h),
                    cut(cutoff),
                    r@,
                    g@,
                    b@,
                    width as nat,
                    height as nat,
                    (*final(cpu)).stashed(slot as int)->Some_0,
                )
            },
{
    assert(r@.len() == r.len() && g@.len() == g.len() && b@.len() == b.len());
    lemma_fields(r@.len(), g@.len(), b@.len(), width, height);
    assert forall|cpu: &mut DctCpu<M>|
        (*cpu).arithmetic() == m && #[trigger] call_ensures(
            DctCpu::<M>::submit_rgb,
            (cpu, slot, r, g, b, width, height, cutoff),
            res,
        ) && res is Ok implies (*final(cpu)).stashed(slot as int) is Some && frame_low_frequencies(
        val,
        crate::energy_laws::cosines(cw, flat_w, wave_w),
        crate::energy_laws::cosines(ch, flat_h, wave_h),
        cut(cutoff),
        r@,
        g@,
        b@,
        width as nat,
        height as nat,
        (*final(cpu)).stashed(slot as int)->Some_0,
    ) by {
        let out = choose|out: RgbPlanes<M::Sample>|
            {
                &&& #[trigger] crate::cpu::submitted(*cpu, slot as int, out, *final(cpu))
                &&& crate::cpu::rgb_done(
                    &(*cpu).arithmetic(),
                    r@,
                    g@,
                    b@,
                    width as int,
                    height as int,
                    cutoff,
                    out,
                )
            };
        lemma_frame(
            m, val, cut, cw, ch, flat_w, wave_w, flat_h, wave_h, r@, g@, b@, width, height, cutoff,
            out,
        );
    }
}

/// Taking a frame gives what waits in the slot, and empties it; the other slot is
/// left alone. It fails exactly where nothing waits.
pub proof fn law_finish_takes_what_waits<M: PlaneMath + Sync>(
    slot: usize,
    res: Result<RgbPlanes<M::Sample>, TransformError>,
)
    ensures
        forall|cpu: &mut DctCpu<M>|
            #[trigger] call_ensures(DctCpu::<M>::finish_rgb, (cpu, slot), res) ==> {
                &&& res is Ok <==> slot < 2 && (*cpu).stashed(slot as int) is Some
                &&& res matches Ok(out) ==> (*cpu).stashed(slot as int) == Some(out)
                &&& res matches Err(e) ==> if slot >= 2 {
                    e is NoSuchSlot && e->call is Finish && e->slot == slot
                } else {
                    e is NothingStashed
                }
                &&& (*final(cpu)).stashed(slot as int) is None
                &&& forall|other: int|
                    other != slot ==> #[trigger] (*final(cpu)).stashed(other) == (*cpu).stashed(
                        other,
                    )
                &&& (*final(cpu)).arithmetic() == (*cpu).arithmetic()
            },
{
}

/// The CPU as one of the compute backends does to a frame what it does on its own:
/// each channel keeps its own low frequencies, in place or in a slot, and what
/// waits in a slot is what is taken from it.
pub proof fn law_cpu_is_a_backend_like_itself<M: PlaneMath + Sync + Send>(
    m: M,
    val: spec_fn(M::Sample) -> real,
    cut: spec_fn(M::Cutoff) -> real,
    cw: spec_fn(int) -> real,
    ch: spec_fn(int) -> real,
    flat_w: real,
    wave_w: real,
    flat_h: real,
    wave_h: real,
    slot: usize,
    r: &[M::Sample],
    g: &[M::Sample],
    b: &[M::Sample],
    width: u32,
    height: u32,
    cutoff: M::Cutoff,
    res: Result<RgbPlanes<M::Sample>, TransformError>,
    submitted: Result<(), TransformError>,
)
    requires
        crate::plane_laws::exact(&m, val),
        compares(&m, cut),
        gives_cosines(&m, val, cw, flat_w, wave_w, width as nat),
        gives_cosines(&m, val, ch, flat_h, wave_h, height as nat),
    ensures
        forall|cpu: &mut DctCpu<M>|
            (*cpu).arithmetic() == m && #[trigger] call_ensures(
                <DctCpu<M> as DctBackend>::process_rgb,
                (cpu, r, g, b, width, height, cutoff),
                res,
            ) ==> {
                &&& res is Ok <==> width > 0 && height > 0 && r@.len() == width * height && g@.len()
                    == width * height && b@.len() == width * height
                &&& res matches Err(e) ==> names_the_fault(
                    e,
                    first_bad(r@.len(), g@.len(), b@.len(), width, height),
                    width,
                    height,
                )
                &&& res matches Ok(out) ==> frame_low_frequencies(
                    val,
                    crate::energy_laws::cosines(cw, flat_w, wave_w),
                    crate::energy_laws::cosines(ch, flat_h, wave_h),
                    cut(cutoff),
                    r@,
                    g@,
                    b@,
                    width as nat,
                    height as nat,
                    out,
                )
            },
        forall|cpu: &mut DctCpu<M>|
            (*cpu).arithmetic() == m && #[trigger] call_ensures(
                <DctCpu<M> as DctBackend>::submit_rgb,
                (cpu, slot, r, g, b, width, height, cutoff),
                submitted,
            ) && submitted is Ok ==> slot < 2 && (*final(cpu)).stashed(slot as int) is Some
                && frame_low_frequencies(
                val,
                crate::energy_laws::cosines(cw, flat_w, wave_w),
                crate::energy_laws::cosines(ch, flat_h, wave_h),
                cut(cutoff),
                r@,
                g@,
                b@,
                width as nat,
                height as nat,
                (*final(cpu)).stashed(slot as int)->Some_0,
            ),
        forall|cpu: &mut DctCpu<M>|
            #[trigger] call_ensures(<DctCpu<M> as DctBackend>::finish_rgb, (cpu, slot), res) ==> {
                &&& res is Ok <==> slot < 2 && (*cpu).stashed(slot as int) is Some
                &&& res matches Ok(out) ==> (*cpu).stashed(slot as int) == Some(out)
                &&& res matches Err(e) ==> if slot >= 2 {
                    e is NoSuchSlot && e->call is Finish && e->slot == slot
                } else {
                    e is NothingStashed
                }
                &&& (*final(cpu)).stashed(slot as int) is None
            },
{
    assert(r@.len() == r.len() && g@.len() == g.len() && b@.len() == b.len());
    lemma_fields(r@.len(), g@.len(), b@.len(), width, height);
    assert forall|cpu: &mut DctCpu<M>|
        (*cpu).arithmetic() == m && #[trigger] call_ensures(
            <DctCpu<M> as DctBackend>::process_rgb,
            (cpu, r, g, b, width, height, cutoff),
            res,
        ) && res is Ok implies frame_low_frequencies(
        val,
        crate::energy_laws::cosines(cw, flat_w, wave_w),
        crate::energy_laws::cosines(ch, flat_h, wave_h),
        cut(cutoff),
        r@,
        g@,
        b@,
        width as nat,
        height as nat,
        res->Ok_0,
    ) by {
        lemma_frame(
            m, val, cut, cw, ch, flat_w, wave_w, flat_h, wave_h, r@, g@, b@, width, height, cutoff,
            res->Ok_0,
        );
    }
    assert forall|cpu: &mut DctCpu<M>|
        (*cpu).arithmetic() == m && #[trigger] call_ensures(
            <DctCpu<M> as DctBackend>::submit_rgb,
            (cpu, slot, r, g, b, width, height, cutoff),
            submitted,
        ) && submitted is Ok implies slot < 2 && (*final(cpu)).stashed(slot as int) is Some
        && frame_low_frequencies(
        val,
        crate::energy_laws::cosines(cw, flat_w, wave_w),
        crate::energy_laws::cosines(ch, flat_h, wave_h),
        cut(cutoff),
        r@,
        g@,
        b@,
        width as nat,
        height as nat,
        (*final(cpu)).stashed(slot as int)->Some_0,
    ) by {
        let out = choose|out: RgbPlanes<M::Sample>|
            {
                &&& #[trigger] crate::cpu::submitted(*cpu, slot as int, out, *final(cpu))
                &&& crate::cpu::rgb_done(
                    &(*cpu).arithmetic(),
                    r@,
                    g@,
                    b@,
                    width as int,
                    height as int,
                    cutoff,
                    out,
                )
            };
        lemma_frame(
            m, val, cut, cw, ch, flat_w, wave_w, flat_h, wave_h, r@, g@, b@, width, height, cutoff,
            out,
        );
    }
}

/// The cutoff alone: a coefficient within it stays as it is, and one beyond it
/// becomes zero.
pub proof fn law_cutoff_drops_high_frequencies<M: PlaneMath>(
    m: &M,
    cut: spec_fn(M::Cutoff) -> real,
    cutoff: M::Cutoff,
    t: M::Threshold,
    w: nat,
    h: nat,
    x: int,
    y: int,
    value: M::Sample,
    out: M::Sample,
)
    requires
        compares(m, cut),
        call_ensures(M::threshold, (m, cutoff), t),
        w <= u32::MAX,
        h <= u32::MAX,
        0 <= x < w,
        0 <= y < h,
        crate::cpu::cut_cell(m, t, w as int, h as int, x, y, value, out),
    ensures
        if frequency(x, w) + frequency(y, h) <= cut(cutoff) {
            out == value
        } else {
            call_ensures(M::zero, (m,), out)
        },
{
    lemma_mask(m, cut, cutoff, t, w, h, x, y);
}

} // verus!
