//! Where every operation of the arithmetic has one result, so have the
//! transforms: what a call returns depends on its own arguments alone.
use crate::dct_backend::RgbPlanes;
use crate::dct_math::PlaneMath;
use crate::fft_dispatch::FftBuffer;
use crate::fft_stages::SpectrumMath;
use vstd::prelude::*;

verus! {

/// Every operation of the plane arithmetic has one result.
pub open spec fn plane_determined<M: PlaneMath>(m: &M) -> bool {
    &&& forall|a: M::Sample, b: M::Sample|
        #![trigger call_ensures(M::zero, (m,), a), call_ensures(M::zero, (m,), b)]
        call_ensures(M::zero, (m,), a) && call_ensures(M::zero, (m,), b) ==> a == b
    &&& forall|acc: M::Sample, s: M::Sample, c: M::Sample, a: M::Sample, b: M::Sample|
        #![trigger call_ensures(M::multiply_add, (m, acc, s, c), a), call_ensures(M::multiply_add, (m, acc, s, c), b)]
        call_ensures(M::multiply_add, (m, acc, s, c), a) && call_ensures(
            M::multiply_add,
            (m, acc, s, c),
            b,
        ) ==> a == b
    &&& forall|k: usize, i: usize, n: usize, a: M::Sample, b: M::Sample|
        #![trigger call_ensures(M::basis_entry, (m, k, i, n), a), call_ensures(M::basis_entry, (m, k, i, n), b)]
        call_ensures(M::basis_entry, (m, k, i, n), a) && call_ensures(
            M::basis_entry,
            (m, k, i, n),
            b,
        ) ==> a == b
    &&& forall|c: M::Cutoff, a: M::Threshold, b: M::Threshold|
        #![trigger call_ensures(M::threshold, (m, c), a), call_ensures(M::threshold, (m, c), b)]
        call_ensures(M::threshold, (m, c), a) && call_ensures(M::threshold, (m, c), b) ==> a == b
    &&& forall|t: M::Threshold, x: usize, dx: usize, y: usize, dy: usize, a: bool, b: bool|
        #![trigger call_ensures(M::beyond, (m, t, x, dx, y, dy), a), call_ensures(M::beyond, (m, t, x, dx, y, dy), b)]
        call_ensures(M::beyond, (m, t, x, dx, y, dy), a) && call_ensures(
            M::beyond,
            (m, t, x, dx, y, dy),
            b,
        ) ==> a == b
    &&& forall|v: M::Sample, a: M::Sample, b: M::Sample|
        #![trigger call_ensures(M::pixel, (m, v), a), call_ensures(M::pixel, (m, v), b)]
        call_ensures(M::pixel, (m, v), a) && call_ensures(M::pixel, (m, v), b) ==> a == b
}

/// A sum of products has one result.
proof fn lemma_one_dot<M: PlaneMath>(
    m: &M,
    a: Seq<M::Sample>,
    b: Seq<M::Sample>,
    one: M::Sample,
    two: M::Sample,
)
    requires
        plane_determined(m),
        crate::cpu::dots(m, a, b, one),
        crate::cpu::dots(m, a, b, two),
    ensures
        one == two,
    decreases a.len(),
{
    if a.len() > 0 {
        let (a0, b0) = (a.drop_last(), b.drop_last());
        let p = choose|p: M::Sample|
            {
                &&& crate::cpu::dots(m, a0, b0, p)
                &&& #[trigger] call_ensures(M::multiply_add, (m, p, a.last(), b.last()), one)
            };
        let q = choose|q: M::Sample|
            {
                &&& crate::cpu::dots(m, a0, b0, q)
                &&& #[trigger] call_ensures(M::multiply_add, (m, q, a.last(), b.last()), two)
            };
        lemma_one_dot(m, a0, b0, p, q);
    }
}

/// Two planes with the same cells are the same.
proof fn lemma_same_plane<T>(a: Seq<T>, b: Seq<T>, w: int, h: int)
    requires
        0 <= w,
        0 <= h,
        a.len() == w * h,
        b.len() == w * h,
        forall|x: int, y: int| 0 <= x < w && 0 <= y < h ==> #[trigger] a[y * w + x] == b[y * w + x],
    ensures
        a == b,
{
    assert forall|i: int| 0 <= i < a.len() implies a[i] == b[i] by {
        assert(w > 0) by (nonlinear_arith)
            requires
                0 <= i < w * h,
                0 <= w,
        ;
        assert(w * h == h * w) by (nonlinear_arith);
        crate::arith::lemma_quotient_bound(i, h, w);
        vstd::arithmetic::div_mod::lemma_fundamental_div_mod(i, w);
        let (x, y) = (i % w, i / w);
        assert(w * y == y * w) by (nonlinear_arith);
        assert(a[y * w + x] == b[y * w + x]);
    }
    assert(a =~= b);
}

/// A basis has one result.
proof fn lemma_one_basis<M: PlaneMath>(m: &M, n: int, a: Seq<M::Sample>, b: Seq<M::Sample>)
    requires
        plane_determined(m),
        0 <= n,
        crate::dct_math::is_basis(m, n, a),
        crate::dct_math::is_basis(m, n, b),
    ensures
        a == b,
{
    assert forall|x: int, y: int| 0 <= x < n && 0 <= y < n implies #[trigger] a[y * n + x] == b[y
        * n + x] by {
        assert(crate::dct_math::basis_cell(m, n, a, y, x));
        assert(crate::dct_math::basis_cell(m, n, b, y, x));
    }
    lemma_same_plane(a, b, n, n);
}

/// A row pass has one result.
proof fn lemma_one_row_pass<M: PlaneMath>(
    m: &M,
    src: Seq<M::Sample>,
    w: int,
    h: int,
    basis: Seq<M::Sample>,
    clamp: bool,
    a: Seq<M::Sample>,
    b: Seq<M::Sample>,
)
    requires
        plane_determined(m),
        0 <= w,
        0 <= h,
        crate::cpu::row_pass(m, src, w, h, basis, clamp, a),
        crate::cpu::row_pass(m, src, w, h, basis, clamp, b),
    ensures
        a == b,
{
    assert forall|x: int, y: int| 0 <= x < w && 0 <= y < h implies #[trigger] a[y * w + x] == b[y
        * w + x] by {
        let (r, s) = (crate::cpu::row_of(src, w, y), crate::cpu::row_of(basis, w, x));
        let at = y * w + x;
        assert(crate::cpu::row_cell(m, src, w, basis, clamp, x, y, a[at]));
        assert(crate::cpu::row_cell(m, src, w, basis, clamp, x, y, b[at]));
        let p = choose|p: M::Sample|
            {
                &&& #[trigger] crate::cpu::dots(m, r, s, p)
                &&& if clamp {
                    call_ensures(M::pixel, (m, p), a[at])
                } else {
                    a[at] == p
                }
            };
        let q = choose|q: M::Sample|
            {
                &&& #[trigger] crate::cpu::dots(m, r, s, q)
                &&& if clamp {
                    call_ensures(M::pixel, (m, q), b[at])
                } else {
                    b[at] == q
                }
            };
        lemma_one_dot(m, r, s, p, q);
    }
    lemma_same_plane(a, b, w, h);
}

/// A cell of a column pass has one result.
proof fn lemma_one_column_cell<M: PlaneMath>(
    m: &M,
    src: Seq<M::Sample>,
    w: int,
    h: int,
    basis: Seq<M::Sample>,
    mask: Option<M::Threshold>,
    x: int,
    y: int,
    a: M::Sample,
    b: M::Sample,
)
    requires
        plane_determined(m),
        crate::cpu::column_cell(m, src, w, h, basis, mask, x, y, a),
        crate::cpu::column_cell(m, src, w, h, basis, mask, x, y, b),
    ensures
        a == b,
{
    let (r, s) = (crate::cpu::column_of(src, w, h, x), crate::cpu::row_of(basis, h, y));
    assert forall|p: M::Sample, q: M::Sample|
        #[trigger] crate::cpu::dots(m, r, s, p) && #[trigger] crate::cpu::dots(
            m,
            r,
            s,
            q,
        ) implies p == q by {
        lemma_one_dot(m, r, s, p, q);
    }
}

/// A column pass has one result.
proof fn lemma_one_column_pass<M: PlaneMath>(
    m: &M,
    src: Seq<M::Sample>,
    w: int,
    h: int,
    basis: Seq<M::Sample>,
    mask: Option<M::Threshold>,
    a: Seq<M::Sample>,
    b: Seq<M::Sample>,
)
    requires
        plane_determined(m),
        0 <= w,
        0 <= h,
        crate::cpu::column_pass(m, src, w, h, basis, mask, a),
        crate::cpu::column_pass(m, src, w, h, basis, mask, b),
    ensures
        a == b,
{
    assert forall|x: int, y: int| 0 <= x < w && 0 <= y < h implies #[trigger] a[y * w + x] == b[y
        * w + x] by {
        let at = y * w + x;
        assert(crate::cpu::column_cell(m, src, w, h, basis, mask, x, y, a[at]));
        assert(crate::cpu::column_cell(m, src, w, h, basis, mask, x, y, b[at]));
        lemma_one_column_cell(m, src, w, h, basis, mask, x, y, a[at], b[at]);
    }
    lemma_same_plane(a, b, w, h);
}

/// A plane has one transform: what comes out depends on the pixels, the frame
/// size and the cutoff, and on nothing that was done before.
pub proof fn law_a_plane_has_one_result<M: PlaneMath>(
    m: &M,
    pixels: Seq<M::Sample>,
    w: int,
    h: int,
    cutoff: M::Cutoff,
    one: Seq<M::Sample>,
    two: Seq<M::Sample>,
)
    requires
        plane_determined(m),
        0 <= w,
        0 <= h,
        crate::cpu::plane_done(m, pixels, w, h, cutoff, one),
        crate::cpu::plane_done(m, pixels, w, h, cutoff, two),
    ensures
        one == two,
{
    let (rows, cols, t, a, b, c) = choose|
        rows: Seq<M::Sample>,
        cols: Seq<M::Sample>,
        t: M::Threshold,
        a: Seq<M::Sample>,
        b: Seq<M::Sample>,
        c: Seq<M::Sample>,
    |
        #[trigger] crate::cpu::plane_steps(m, pixels, w, h, cutoff, rows, cols, t, a, b, c, one);
    let (rows_2, cols_2, t_2, a_2, b_2, c_2) = choose|
        rows: Seq<M::Sample>,
        cols: Seq<M::Sample>,
        t: M::Threshold,
        a: Seq<M::Sample>,
        b: Seq<M::Sample>,
        c: Seq<M::Sample>,
    |
        #[trigger] crate::cpu::plane_steps(m, pixels, w, h, cutoff, rows, cols, t, a, b, c, two);
    lemma_one_basis(m, w, rows, rows_2);
    lemma_one_basis(m, h, cols, cols_2);
    assert(t == t_2);
    lemma_one_row_pass(m, pixels, w, h, rows, false, a, a_2);
    lemma_one_column_pass(m, a, w, h, cols, Some(t), b, b_2);
    let cols_t = crate::dct_math::transposed(cols, h);
    let rows_t = crate::dct_math::transposed(rows, w);
    lemma_one_column_pass(m, b, w, h, cols_t, None, c, c_2);
    lemma_one_row_pass(m, c, w, h, rows_t, true, one, two);
}

/// A color plane comes out of a frame as it does alone: no channel influences
/// another, and a frame is taken exactly if each of its planes is.
pub proof fn law_channels_are_independent<M: PlaneMath>(
    m: &M,
    r: Seq<M::Sample>,
    g: Seq<M::Sample>,
    b: Seq<M::Sample>,
    width: u32,
    height: u32,
    cutoff: M::Cutoff,
    frame: RgbPlanes<M::Sample>,
    red: Seq<M::Sample>,
    green: Seq<M::Sample>,
    blue: Seq<M::Sample>,
)
    requires
        plane_determined(m),
        crate::cpu::rgb_done(m, r, g, b, width as int, height as int, cutoff, frame),
        crate::cpu::plane_done(m, r, width as int, height as int, cutoff, red),
        crate::cpu::plane_done(m, g, width as int, height as int, cutoff, green),
        crate::cpu::plane_done(m, b, width as int, height as int, cutoff, blue),
    ensures
        frame.r@ == red,
        frame.g@ == green,
        frame.b@ == blue,
        crate::dct_backend::rgb_error(r.len(), g.len(), b.len(), width, height) is None <==> {
            &&& crate::dct_backend::plane_error(r.len(), width, height) is None
            &&& crate::dct_backend::plane_error(g.len(), width, height) is None
            &&& crate::dct_backend::plane_error(b.len(), width, height) is None
        },
{
    let (w, h) = (width as int, height as int);
    law_a_plane_has_one_result(m, r, w, h, cutoff, frame.r@, red);
    law_a_plane_has_one_result(m, g, w, h, cutoff, frame.g@, green);
    law_a_plane_has_one_result(m, b, w, h, cutoff, frame.b@, blue);
}

/// The GPU and the CPU agree: the passes on an uploaded plane leave what the CPU
/// gives for it.
pub proof fn law_gpu_agrees_with_the_cpu<M: PlaneMath>(
    m: &M,
    w: int,
    h: int,
    cutoff: M::Cutoff,
    rows: Seq<M::Sample>,
    cols: Seq<M::Sample>,
    t: M::Threshold,
    states: Seq<crate::gpu::PlaneState<M::Sample>>,
    out: Seq<M::Sample>,
)
    requires
        plane_determined(m),
        0 <= w,
        0 <= h,
        crate::dct_math::is_basis(m, w, rows),
        crate::dct_math::is_basis(m, h, cols),
        call_ensures(M::threshold, (m, cutoff), t),
        states.len() == crate::gpu::passes().len() + 1,
        forall|i: int|
            0 <= i < crate::gpu::passes().len() ==> #[trigger] crate::gpu::pass_done(
                m,
                crate::gpu::passes()[i],
                w,
                h,
                rows,
                cols,
                t,
                states[i],
                states[i + 1],
            ),
        crate::cpu::plane_done(m, states.first().input, w, h, cutoff, out),
    ensures
        states.last().b == out,
{
    crate::gpu::law_passes_transform_the_plane(m, w, h, cutoff, rows, cols, t, states);
    law_a_plane_has_one_result(m, states.first().input, w, h, cutoff, states.last().b, out);
}

/// Every operation of the spectrum's arithmetic has one result.
pub open spec fn spectrum_determined<M: SpectrumMath>(m: &M) -> bool {
    &&& forall|y: M::Complex, z: M::Complex|
        #![trigger call_ensures(M::zero, (m,), y), call_ensures(M::zero, (m,), z)]
        call_ensures(M::zero, (m,), y) && call_ensures(M::zero, (m,), z) ==> y == z
    &&& forall|a: M::Complex, b: M::Complex, y: M::Complex, z: M::Complex|
        #![trigger call_ensures(M::plus, (m, a, b), y), call_ensures(M::plus, (m, a, b), z)]
        call_ensures(M::plus, (m, a, b), y) && call_ensures(M::plus, (m, a, b), z) ==> y == z
    &&& forall|v: M::Complex, a: usize, b: usize, d: usize, i: bool, y: M::Complex, z: M::Complex|
        #![trigger call_ensures(M::turned, (m, v, a, b, d, i), y), call_ensures(M::turned, (m, v, a, b, d, i), z)]
        call_ensures(M::turned, (m, v, a, b, d, i), y) && call_ensures(M::turned, (m, v, a, b, d, i), z) ==> y == z
    &&& forall|x: M::Real, y: M::Complex, z: M::Complex|
        #![trigger call_ensures(M::lifted, (m, x), y), call_ensures(M::lifted, (m, x), z)]
        call_ensures(M::lifted, (m, x), y) && call_ensures(M::lifted, (m, x), z) ==> y == z
    &&& forall|v: M::Complex, k: usize, n: usize, y: M::Real, z: M::Real|
        #![trigger call_ensures(M::cosine_part, (m, v, k, n), y), call_ensures(M::cosine_part, (m, v, k, n), z)]
        call_ensures(M::cosine_part, (m, v, k, n), y) && call_ensures(M::cosine_part, (m, v, k, n), z) ==> y == z
    &&& forall|u: M::Real, k: usize, n: usize, y: M::Real, z: M::Real|
        #![trigger call_ensures(M::normalized, (m, u, k, n), y), call_ensures(M::normalized, (m, u, k, n), z)]
        call_ensures(M::normalized, (m, u, k, n), y) && call_ensures(M::normalized, (m, u, k, n), z) ==> y == z
    &&& forall|f: M::Real, k: usize, n: usize, y: M::Real, z: M::Real|
        #![trigger call_ensures(M::unnormalized, (m, f, k, n), y), call_ensures(M::unnormalized, (m, f, k, n), z)]
        call_ensures(M::unnormalized, (m, f, k, n), y) && call_ensures(M::unnormalized, (m, f, k, n), z) ==> y == z
    &&& forall|u: M::Real, y: M::Complex, z: M::Complex|
        #![trigger call_ensures(M::first_bin, (m, u), y), call_ensures(M::first_bin, (m, u), z)]
        call_ensures(M::first_bin, (m, u), y) && call_ensures(M::first_bin, (m, u), z) ==> y == z
    &&& forall|u: M::Real, y: M::Complex, z: M::Complex|
        #![trigger call_ensures(M::middle_bin, (m, u), y), call_ensures(M::middle_bin, (m, u), z)]
        call_ensures(M::middle_bin, (m, u), y) && call_ensures(M::middle_bin, (m, u), z) ==> y == z
    &&& forall|u: M::Real, t: M::Real, k: usize, n: usize, y: M::Complex, z: M::Complex|
        #![trigger call_ensures(M::paired_bin, (m, u, t, k, n), y), call_ensures(M::paired_bin, (m, u, t, k, n), z)]
        call_ensures(M::paired_bin, (m, u, t, k, n), y) && call_ensures(M::paired_bin, (m, u, t, k, n), z) ==> y == z
    &&& forall|v: M::Complex, y: M::Complex, z: M::Complex|
        #![trigger call_ensures(M::mirrored, (m, v), y), call_ensures(M::mirrored, (m, v), z)]
        call_ensures(M::mirrored, (m, v), y) && call_ensures(M::mirrored, (m, v), z) ==> y == z
    &&& forall|v: M::Complex, n: usize, y: M::Real, z: M::Real|
        #![trigger call_ensures(M::sample, (m, v, n), y), call_ensures(M::sample, (m, v, n), z)]
        call_ensures(M::sample, (m, v, n), y) && call_ensures(M::sample, (m, v, n), z) ==> y == z
}

/// A sum has one result.
proof fn lemma_one_sum<M: SpectrumMath>(
    m: &M,
    terms: Seq<M::Complex>,
    one: M::Complex,
    two: M::Complex,
)
    requires
        spectrum_determined(m),
        crate::fft_stages::adds_up(m, terms, one),
        crate::fft_stages::adds_up(m, terms, two),
    ensures
        one == two,
    decreases terms.len(),
{
    if terms.len() > 0 {
        let less = terms.drop_last();
        let p = choose|p: M::Complex|
            {
                &&& crate::fft_stages::adds_up(m, less, p)
                &&& #[trigger] call_ensures(M::plus, (m, p, terms.last()), one)
            };
        let q = choose|q: M::Complex|
            {
                &&& crate::fft_stages::adds_up(m, less, q)
                &&& #[trigger] call_ensures(M::plus, (m, q, terms.last()), two)
            };
        lemma_one_sum(m, less, p, q);
    }
}

/// A point of a direct transform has one result.
proof fn lemma_one_point<M: SpectrumMath>(
    m: &M,
    ins: Seq<M::Complex>,
    k: int,
    inverse: bool,
    one: M::Complex,
    two: M::Complex,
)
    requires
        spectrum_determined(m),
        crate::fft_stages::direct_point(m, ins, k, one, inverse),
        crate::fft_stages::direct_point(m, ins, k, two, inverse),
    ensures
        one == two,
{
    let p = choose|terms: Seq<M::Complex>|
        {
            &&& terms.len() == ins.len()
            &&& forall|j: int|
                0 <= j < ins.len() ==> call_ensures(
                    M::turned,
                    (m, ins[j], j as usize, k as usize, ins.len() as usize, inverse),
                    #[trigger] terms[j],
                )
            &&& #[trigger] crate::fft_stages::adds_up(m, terms, one)
        };
    let q = choose|terms: Seq<M::Complex>|
        {
            &&& terms.len() == ins.len()
            &&& forall|j: int|
                0 <= j < ins.len() ==> call_ensures(
                    M::turned,
                    (m, ins[j], j as usize, k as usize, ins.len() as usize, inverse),
                    #[trigger] terms[j],
                )
            &&& #[trigger] crate::fft_stages::adds_up(m, terms, two)
        };
    assert forall|j: int| 0 <= j < ins.len() implies p[j] == q[j] by {
        assert(call_ensures(
            M::turned,
            (m, ins[j], j as usize, k as usize, ins.len() as usize, inverse),
            p[j],
        ));
        assert(call_ensures(
            M::turned,
            (m, ins[j], j as usize, k as usize, ins.len() as usize, inverse),
            q[j],
        ));
    }
    assert(p =~= q);
    lemma_one_sum(m, p, one, two);
}

/// A butterfly has one result.
proof fn lemma_one_butterfly<M: SpectrumMath>(
    m: &M,
    ins: Seq<M::Complex>,
    p: int,
    width: int,
    inverse: bool,
    one: Seq<M::Complex>,
    two: Seq<M::Complex>,
)
    requires
        spectrum_determined(m),
        crate::fft_stages::butterfly(m, ins, one, p, width, inverse),
        crate::fft_stages::butterfly(m, ins, two, p, width, inverse),
    ensures
        one == two,
{
    let a = choose|turned: Seq<M::Complex>|
        {
            &&& turned.len() == ins.len()
            &&& forall|j: int|
                0 <= j < ins.len() ==> call_ensures(
                    M::turned,
                    (m, ins[j], j as usize, p as usize, width as usize, inverse),
                    #[trigger] turned[j],
                )
            &&& forall|k: int|
                0 <= k < ins.len() ==> #[trigger] crate::fft_stages::direct_point(
                    m,
                    turned,
                    k,
                    one[k],
                    inverse,
                )
        };
    let b = choose|turned: Seq<M::Complex>|
        {
            &&& turned.len() == ins.len()
            &&& forall|j: int|
                0 <= j < ins.len() ==> call_ensures(
                    M::turned,
                    (m, ins[j], j as usize, p as usize, width as usize, inverse),
                    #[trigger] turned[j],
                )
            &&& forall|k: int|
                0 <= k < ins.len() ==> #[trigger] crate::fft_stages::direct_point(
                    m,
                    turned,
                    k,
                    two[k],
                    inverse,
                )
        };
    assert forall|j: int| 0 <= j < ins.len() implies a[j] == b[j] by {
        assert(call_ensures(
            M::turned,
            (m, ins[j], j as usize, p as usize, width as usize, inverse),
            a[j],
        ));
        assert(call_ensures(
            M::turned,
            (m, ins[j], j as usize, p as usize, width as usize, inverse),
            b[j],
        ));
    }
    assert(a =~= b);
    assert forall|k: int| 0 <= k < ins.len() implies one[k] == two[k] by {
        assert(crate::fft_stages::direct_point(m, a, k, one[k], inverse));
        assert(crate::fft_stages::direct_point(m, b, k, two[k], inverse));
        lemma_one_point(m, a, k, inverse, one[k], two[k]);
    }
    assert(one =~= two);
}

/// A stage has one result.
proof fn lemma_one_stage<M: SpectrumMath>(
    m: &M,
    before: Seq<M::Complex>,
    l: int,
    r: int,
    inverse: bool,
    one: Seq<M::Complex>,
    two: Seq<M::Complex>,
)
    requires
        spectrum_determined(m),
        l > 0,
        r > 0,
        before.len() as int % (l * r) == 0,
        crate::fft_stages::stage(m, before, one, l, r, inverse),
        crate::fft_stages::stage(m, before, two, l, r, inverse),
    ensures
        one == two,
{
    let width = l * r;
    let n = before.len() as int;
    assert(width > 0 && width == r * l) by (nonlinear_arith)
        requires
            l > 0,
            r > 0,
            width == l * r,
    ;
    vstd::arithmetic::div_mod::lemma_fundamental_div_mod(n, width);
    assert(width * (n / width) == (n / width) * width) by (nonlinear_arith);
    assert forall|i: int| 0 <= i < n implies one[i] == two[i] by {
        let (g, rest) = (i / width, i % width);
        let (k, p) = (rest / l, rest % l);
        crate::arith::lemma_quotient_bound(i, n / width, width);
        vstd::arithmetic::div_mod::lemma_fundamental_div_mod(i, width);
        crate::arith::lemma_quotient_bound(rest, r, l);
        vstd::arithmetic::div_mod::lemma_fundamental_div_mod(rest, l);
        assert(width * g == g * width && l * k == k * l) by (nonlinear_arith);
        let at = g * (l * r) + p;
        assert(i == at + k * l);
        assert(crate::fft_stages::cell_done(m, before, one, l, r, g, p, inverse));
        assert(crate::fft_stages::cell_done(m, before, two, l, r, g, p, inverse));
        let (a, b) = (
            crate::fft_stages::column(one, at, l, r),
            crate::fft_stages::column(two, at, l, r),
        );
        lemma_one_butterfly(
            m,
            crate::fft_stages::column(before, at, l, r),
            p,
            l * r,
            inverse,
            a,
            b,
        );
        assert(a[k] == one[i] && b[k] == two[i]);
    }
    assert(one =~= two);
}

/// The stages have one result, of the same length.
proof fn lemma_one_run<M: SpectrumMath>(
    m: &M,
    first: Seq<M::Complex>,
    f: Seq<usize>,
    inverse: bool,
    one: Seq<M::Complex>,
    two: Seq<M::Complex>,
)
    requires
        spectrum_determined(m),
        crate::fft_plan::all_positive(f),
        first.len() as int % crate::fft_plan::product(f) as int == 0,
        crate::fft_stages::stages(m, first, f, inverse, one),
        crate::fft_stages::stages(m, first, f, inverse, two),
    ensures
        one == two,
        one.len() == first.len(),
    decreases f.len(),
{
    if f.len() > 0 {
        crate::fft_plan::lemma_tail_positive(f);
        let rest = f.drop_first();
        crate::fft_plan::lemma_product_positive(rest);
        let (l, r) = (crate::fft_plan::product(rest) as int, f[0] as int);
        let n = first.len() as int;
        assert(crate::fft_plan::product(f) as int == r * l);
        assert(r * l == l * r && r * l > 0) by (nonlinear_arith)
            requires
                r > 0,
                l > 0,
        ;
        vstd::arithmetic::div_mod::lemma_fundamental_div_mod(n, r * l);
        let q = n / (r * l);
        assert(n == (q * r) * l) by (nonlinear_arith)
            requires
                n == (r * l) * q,
        ;
        vstd::arithmetic::div_mod::lemma_mod_multiples_basic(q * r, l);
        let p = choose|mid: Seq<M::Complex>|
            {
                &&& crate::fft_stages::stages(m, first, rest, inverse, mid)
                &&& #[trigger] crate::fft_stages::stage(m, mid, one, l, r, inverse)
            };
        let s = choose|mid: Seq<M::Complex>|
            {
                &&& crate::fft_stages::stages(m, first, rest, inverse, mid)
                &&& #[trigger] crate::fft_stages::stage(m, mid, two, l, r, inverse)
            };
        lemma_one_run(m, first, rest, inverse, p, s);
        lemma_one_stage(m, p, l, r, inverse, one, two);
    }
}

/// Digit reversal has one result.
proof fn lemma_one_reversal<T>(x: Seq<T>, f: Seq<usize>, one: Seq<T>, two: Seq<T>)
    requires
        crate::fft_plan::all_positive(f),
        x.len() == crate::fft_plan::product(f),
        crate::fft_stages::digit_reversed(x, f, one),
        crate::fft_stages::digit_reversed(x, f, two),
    ensures
        one == two,
{
    let back = f.reverse();
    assert(back.reverse() =~= f);
    assert forall|k: int| 0 <= k < back.len() implies 1 <= #[trigger] back[k] by {
        assert(back[k] == f[f.len() - 1 - k]);
    }
    crate::plan_laws::lemma_product_reverse(f);
    assert forall|j: int| 0 <= j < x.len() implies one[j] == two[j] by {
        let i = crate::fft_plan::digit_reverse(j as nat, back);
        crate::fft_plan::lemma_digit_reverse_bound(j as nat, back);
        crate::plan_laws::law_digit_reverse_round_trip(j as nat, back);
        assert(one[crate::fft_plan::digit_reverse(i, f) as int] == x[i as int]);
        assert(two[crate::fft_plan::digit_reverse(i, f) as int] == x[i as int]);
    }
    assert(one =~= two);
}

/// A sequence has one FFT.
pub proof fn law_the_fft_has_one_result<M: SpectrumMath>(
    m: &M,
    x: Seq<M::Complex>,
    f: Seq<usize>,
    inverse: bool,
    one: Seq<M::Complex>,
    two: Seq<M::Complex>,
)
    requires
        spectrum_determined(m),
        crate::fft_plan::all_positive(f),
        x.len() == crate::fft_plan::product(f),
        crate::fft_stages::transforms(m, x, f, inverse, one),
        crate::fft_stages::transforms(m, x, f, inverse, two),
    ensures
        one == two,
{
    let p = choose|first: Seq<M::Complex>|
        crate::fft_stages::digit_reversed(x, f, first) && #[trigger] crate::fft_stages::stages(
            m,
            first,
            f,
            inverse,
            one,
        );
    let q = choose|first: Seq<M::Complex>|
        crate::fft_stages::digit_reversed(x, f, first) && #[trigger] crate::fft_stages::stages(
            m,
            first,
            f,
            inverse,
            two,
        );
    lemma_one_reversal(x, f, p, q);
    crate::fft_plan::lemma_product_positive(f);
    crate::arith::lemma_div_mod_of(
        x.len() as int,
        crate::fft_plan::product(f) as int,
        1,
        0,
    );
    lemma_one_run(m, p, f, inverse, one, two);
}

/// The index that the interleave puts at `j`.
proof fn lemma_interleave_reaches(j: int, n: int) -> (i: int)
    requires
        0 <= j < n,
        n % 2 == 0,
    ensures
        0 <= i < n,
        crate::fft_plan::interleave(i, n) == j,
{
    if j < n / 2 {
        2 * j
    } else {
        2 * (n - 1 - j) + 1
    }
}

/// A sequence has one DCT-II.
pub proof fn law_the_dct2_has_one_result<M: SpectrumMath>(
    m: &M,
    x: Seq<M::Real>,
    f: Seq<usize>,
    one: Seq<M::Real>,
    two: Seq<M::Real>,
)
    requires
        spectrum_determined(m),
        crate::fft_plan::all_positive(f),
        x.len() == crate::fft_plan::product(f),
        x.len() % 2 == 0,
        crate::fft_stages::dct2(m, x, f, one),
        crate::fft_stages::dct2(m, x, f, two),
    ensures
        one == two,
{
    let n = x.len() as int;
    let (v, s) = choose|v: Seq<M::Complex>, s: Seq<M::Complex>|
        {
            &&& crate::fft_stages::interleaved(m, x, v)
            &&& #[trigger] crate::fft_stages::transforms(m, v, f, false, s)
            &&& s.len() == x.len()
            &&& forall|k: int|
                0 <= k < x.len() ==> #[trigger] crate::fft_stages::dct2_bin(
                    m,
                    s[k],
                    k,
                    x.len() as int,
                    one[k],
                )
        };
    let (v_2, s_2) = choose|v: Seq<M::Complex>, s: Seq<M::Complex>|
        {
            &&& crate::fft_stages::interleaved(m, x, v)
            &&& #[trigger] crate::fft_stages::transforms(m, v, f, false, s)
            &&& s.len() == x.len()
            &&& forall|k: int|
                0 <= k < x.len() ==> #[trigger] crate::fft_stages::dct2_bin(
                    m,
                    s[k],
                    k,
                    x.len() as int,
                    two[k],
                )
        };
    assert forall|j: int| 0 <= j < n implies v[j] == v_2[j] by {
        let i = lemma_interleave_reaches(j, n);
        let at = crate::fft_plan::interleave(i, n);
        assert(call_ensures(M::lifted, (m, x[i]), v[at]));
        assert(call_ensures(M::lifted, (m, x[i]), v_2[at]));
    }
    assert(v =~= v_2);
    law_the_fft_has_one_result(m, v, f, false, s, s_2);
    assert forall|k: int| 0 <= k < n implies one[k] == two[k] by {
        assert(crate::fft_stages::dct2_bin(m, s[k], k, n, one[k]));
        assert(crate::fft_stages::dct2_bin(m, s_2[k], k, n, two[k]));
        let u = choose|u: M::Real|
            {
                &&& call_ensures(M::cosine_part, (m, s[k], k as usize, n as usize), u)
                &&& #[trigger] call_ensures(M::normalized, (m, u, k as usize, n as usize), one[k])
            };
        let u_2 = choose|u: M::Real|
            {
                &&& call_ensures(M::cosine_part, (m, s[k], k as usize, n as usize), u)
                &&& #[trigger] call_ensures(M::normalized, (m, u, k as usize, n as usize), two[k])
            };
        assert(u == u_2);
    }
    assert(one =~= two);
}

/// A spectrum is rebuilt in one way.
proof fn lemma_one_rebuilt<M: SpectrumMath>(
    m: &M,
    u: Seq<M::Real>,
    one: Seq<M::Complex>,
    two: Seq<M::Complex>,
)
    requires
        spectrum_determined(m),
        u.len() % 2 == 0,
        crate::fft_stages::rebuilt(m, u, one),
        crate::fft_stages::rebuilt(m, u, two),
    ensures
        one == two,
{
    let n = u.len() as int;
    assert forall|k: int| 1 <= k < n / 2 implies #[trigger] one[k] == two[k] && one[n - k] == two[n
        - k] by {
        assert(call_ensures(M::paired_bin, (m, u[k], u[n - k], k as usize, n as usize), one[k]));
        assert(call_ensures(M::paired_bin, (m, u[k], u[n - k], k as usize, n as usize), two[k]));
        assert(call_ensures(M::mirrored, (m, one[k]), one[n - k]));
        assert(call_ensures(M::mirrored, (m, two[k]), two[n - k]));
    }
    assert forall|j: int| 0 <= j < n implies one[j] == two[j] by {
        if j > n / 2 {
            let k = n - j;
            assert(n == 2 * (n / 2));
            assert(one[k] == two[k]);
            assert(one[n - k] == two[n - k]);
        }
    }
    assert(one =~= two);
}

/// A sequence has one DCT-III.
pub proof fn law_the_dct3_has_one_result<M: SpectrumMath>(
    m: &M,
    bins: Seq<M::Real>,
    f: Seq<usize>,
    one: Seq<M::Real>,
    two: Seq<M::Real>,
)
    requires
        spectrum_determined(m),
        crate::fft_plan::all_positive(f),
        bins.len() == crate::fft_plan::product(f),
        bins.len() % 2 == 0,
        crate::fft_stages::dct3(m, bins, f, one),
        crate::fft_stages::dct3(m, bins, f, two),
    ensures
        one == two,
{
    let n = bins.len() as int;
    let (u, v, y) = choose|u: Seq<M::Real>, v: Seq<M::Complex>, y: Seq<M::Complex>|
        {
            &&& u.len() == bins.len()
            &&& forall|k: int|
                0 <= k < n ==> call_ensures(
                    M::unnormalized,
                    (m, bins[k], k as usize, n as usize),
                    #[trigger] u[k],
                )
            &&& #[trigger] crate::fft_stages::rebuilt(m, u, v)
            &&& #[trigger] crate::fft_stages::transforms(m, v, f, true, y)
            &&& y.len() == bins.len()
            &&& forall|i: int|
                0 <= i < n ==> call_ensures(
                    M::sample,
                    (m, y[crate::fft_plan::interleave(i, n)], n as usize),
                    #[trigger] one[i],
                )
        };
    let (u_2, v_2, y_2) = choose|u: Seq<M::Real>, v: Seq<M::Complex>, y: Seq<M::Complex>|
        {
            &&& u.len() == bins.len()
            &&& forall|k: int|
                0 <= k < n ==> call_ensures(
                    M::unnormalized,
                    (m, bins[k], k as usize, n as usize),
                    #[trigger] u[k],
                )
            &&& #[trigger] crate::fft_stages::rebuilt(m, u, v)
            &&& #[trigger] crate::fft_stages::transforms(m, v, f, true, y)
            &&& y.len() == bins.len()
            &&& forall|i: int|
                0 <= i < n ==> call_ensures(
                    M::sample,
                    (m, y[crate::fft_plan::interleave(i, n)], n as usize),
                    #[trigger] two[i],
                )
        };
    assert forall|k: int| 0 <= k < n implies u[k] == u_2[k] by {
        assert(call_ensures(M::unnormalized, (m, bins[k], k as usize, n as usize), u[k]));
        assert(call_ensures(M::unnormalized, (m, bins[k], k as usize, n as usize), u_2[k]));
    }
    assert(u =~= u_2);
    lemma_one_rebuilt(m, u, v, v_2);
    law_the_fft_has_one_result(m, v, f, true, y, y_2);
    assert forall|i: int| 0 <= i < n implies one[i] == two[i] by {
        let at = crate::fft_plan::interleave(i, n);
        assert(call_ensures(M::sample, (m, y[at], n as usize), one[i]));
        assert(call_ensures(M::sample, (m, y_2[at], n as usize), two[i]));
    }
    assert(one =~= two);
}

/// The device's FFT is the CPU's: for every sequence of a batch the passes leave
/// what the CPU gives for that sequence alone.
pub proof fn law_device_fft_is_the_cpu_fft<M: SpectrumMath>(
    m: &M,
    n: usize,
    f: Seq<usize>,
    batch: usize,
    inverse: bool,
    states: Seq<crate::dispatch_laws::SequenceState<M>>,
    out: Seq<M::Complex>,
)
    requires
        spectrum_determined(m),
        crate::fft_plan::all_positive(f),
        n == crate::fft_plan::product(f),
        n <= u32::MAX,
        crate::dispatch_laws::run_of(
            m,
            crate::fft_dispatch::fft_plan(n, f, batch, inverse),
            n as int,
            states,
        ),
        (states.first().complex)(FftBuffer::Input).len() == n,
        crate::fft_stages::transforms(
            m,
            (states.first().complex)(FftBuffer::Input),
            f,
            inverse,
            out,
        ),
    ensures
        (states.last().complex)(FftBuffer::Work) == out,
{
    let x = (states.first().complex)(FftBuffer::Input);
    let y = (states.last().complex)(FftBuffer::Work);
    crate::dispatch_laws::law_fft_passes_compute_the_fft(m, n, f, batch, inverse, states);
    law_the_fft_has_one_result(m, x, f, inverse, y, out);
}

/// The device's DCT-III is the CPU's.
pub proof fn law_device_dct3_is_the_cpu_dct3<M: SpectrumMath>(
    m: &M,
    n: usize,
    f: Seq<usize>,
    batch: usize,
    states: Seq<crate::dispatch_laws::SequenceState<M>>,
    out: Seq<M::Real>,
)
    requires
        spectrum_determined(m),
        crate::fft_plan::all_positive(f),
        n == crate::fft_plan::product(f),
        n % 2 == 0,
        n <= u32::MAX,
        crate::dispatch_laws::run_of(
            m,
            crate::fft_dispatch::dct3_plan(n, f, batch),
            n as int,
            states,
        ),
        (states.first().reals)(FftBuffer::Input).len() == n,
        crate::fft_stages::dct3(m, (states.first().reals)(FftBuffer::Input), f, out),
    ensures
        (states.last().reals)(FftBuffer::Output) == out,
{
    let x = (states.first().reals)(FftBuffer::Input);
    let y = (states.last().reals)(FftBuffer::Output);
    crate::dispatch_laws::law_dct3_passes_compute_the_dct3(m, n, f, batch, states);
    law_the_dct3_has_one_result(m, x, f, y, out);
}

/// The device's DCT-II is the CPU's.
pub proof fn law_device_dct2_is_the_cpu_dct2<M: SpectrumMath>(
    m: &M,
    n: usize,
    f: Seq<usize>,
    batch: usize,
    states: Seq<crate::dispatch_laws::SequenceState<M>>,
    out: Seq<M::Real>,
)
    requires
        spectrum_determined(m),
        crate::fft_plan::all_positive(f),
        n == crate::fft_plan::product(f),
        n % 2 == 0,
        n <= u32::MAX,
        crate::dispatch_laws::run_of(
            m,
            crate::fft_dispatch::dct2_plan(n, f, batch),
            n as int,
            states,
        ),
        (states.first().reals)(FftBuffer::Input).len() == n,
        crate::fft_stages::dct2(m, (states.first().reals)(FftBuffer::Input), f, out),
    ensures
        (states.last().reals)(FftBuffer::Output) == out,
{
    let x = (states.first().reals)(FftBuffer::Input);
    let y = (states.last().reals)(FftBuffer::Output);
    crate::dispatch_laws::law_dct2_passes_compute_the_dct2(m, n, f, batch, states);
    law_the_dct2_has_one_result(m, x, f, y, out);
}

} // verus!
