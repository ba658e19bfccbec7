//! The transforms by way of the FFT are products with the orthonormal cosine
//! basis, where the arithmetic is exact: `val(x)` is the number a sample stands
//! for, and `c(e)` the cosine of `e` steps, `4 * n` to a full turn.
use crate::dct_math::PlaneMath;
use crate::fft_plane::{AxisTransform, Direction};
use crate::fft_stages::SpectrumMath;
use vstd::prelude::*;

verus! {

/// Basis function `k` at position `i`, as in `is_cosine_basis`.
pub open spec fn cosine_entry(
    c: spec_fn(int) -> real,
    flat: real,
    wave: real,
    k: int,
    i: int,
) -> real {
    crate::cosine_laws::scale(flat, wave, k) * c((2 * i + 1) * k)
}

/// The orthonormal scale is put on and taken off exactly.
pub open spec fn exact_scale<M: SpectrumMath>(
    m: &M,
    val: spec_fn(M::Real) -> real,
    flat: real,
    wave: real,
    n: int,
) -> bool {
    &&& forall|u: M::Real, k: usize, out: M::Real|
        #![trigger call_ensures(M::normalized, (m, u, k, n as usize), out)]
        call_ensures(M::normalized, (m, u, k, n as usize), out) ==> 2 as real * val(out) == val(u)
            * crate::cosine_laws::scale(flat, wave, k as int)
    &&& forall|b: M::Real, k: usize, u: M::Real|
        #![trigger call_ensures(M::unnormalized, (m, b, k, n as usize), u)]
        call_ensures(M::unnormalized, (m, b, k, n as usize), u) ==> val(u)
            * crate::cosine_laws::scale(flat, wave, k as int) == 2 as real * val(b)
}

/// The arithmetic `m` is exact for sequences of length `n`: that of the FFT, of
/// the real operations around it, and of the scale. A real number has the
/// components of a number times a cosine.
pub open spec fn spectrum_exact<M: SpectrumMath>(
    m: &M,
    co: spec_fn(M::Complex, int) -> real,
    cr: spec_fn(M::Real, int) -> real,
    val: spec_fn(M::Real) -> real,
    c: spec_fn(int) -> real,
    flat: real,
    wave: real,
    n: int,
) -> bool {
    &&& crate::cosine_laws::is_cosine(c, n)
    &&& flat * flat * n as real == 1 as real
    &&& wave * wave * n as real == 2 as real
    &&& crate::fft_laws::exact(m, co, 4 * n)
    &&& crate::fft_laws::cycles_vanish(co, 4 * n, n as nat)
    &&& crate::dct_laws::exact_forward(m, co, cr, n)
    &&& crate::dct_laws::exact_backward(m, co, cr, n)
    &&& exact_scale(m, val, flat, wave, n)
    &&& forall|x: M::Real, e: int| #[trigger] cr(x, e) == val(x) * c(e)
}

/// A cosine term at the middle is twice a sample times a cosine.
proof fn lemma_term<R>(
    cr: spec_fn(R, int) -> real,
    val: spec_fn(R) -> real,
    c: spec_fn(int) -> real,
    n: int,
    x: R,
    i: int,
    k: int,
)
    requires
        crate::cosine_laws::is_cosine(c, n),
        forall|x: R, e: int| #[trigger] cr(x, e) == val(x) * c(e),
    ensures
        crate::dct_laws::cosine_term(cr, x, i, k, 0) == 2 as real * (val(x) * c((2 * i + 1) * k)),
{
    let a = (2 * i + 1) * k;
    assert(0 - a == -a && 0 + a == a);
    assert(c(-a) == c(a));
    let (v, w) = (val(x), c(a));
    assert(cr(x, 0 - a) == v * w);
    assert(cr(x, 0 + a) == v * w);
}

/// In exact arithmetic the DCT-II by way of the FFT is the product with the
/// orthonormal cosine basis.
pub proof fn law_dct2_is_the_basis_product<M: SpectrumMath, S>(
    m: &M,
    co: spec_fn(M::Complex, int) -> real,
    cr: spec_fn(M::Real, int) -> real,
    val: spec_fn(M::Real) -> real,
    c: spec_fn(int) -> real,
    flat: real,
    wave: real,
    x: Seq<M::Real>,
    f: Seq<usize>,
    out: Seq<M::Real>,
    entries: spec_fn(S) -> real,
    basis: Seq<S>,
    k: int,
)
    requires
        spectrum_exact(m, co, cr, val, c, flat, wave, x.len() as int),
        crate::cosine_laws::is_cosine_basis(entries, c, flat, wave, basis, x.len()),
        crate::fft_plan::all_positive(f),
        x.len() == crate::fft_plan::product(f),
        x.len() <= usize::MAX,
        x.len() % 2 == 0,
        crate::fft_stages::dct2(m, x, f, out),
        0 <= k < x.len(),
    ensures
        out.len() == x.len(),
        val(out[k]) == crate::sums::total(
            |i: int|
                val(x[i]) * crate::plane_laws::entry(entries, basis, x.len() as int, k, i),
            x.len(),
        ),
{
    let n = x.len();
    let ni = n as int;
    crate::dct_laws::law_dct2_sums_cosines(m, co, cr, x, f, out, k);
    let u = choose|u: M::Real|
        {
            &&& #[trigger] call_ensures(
                M::normalized,
                (m, u, k as usize, x.len() as usize),
                out[k],
            )
            &&& forall|e: int|
                #[trigger] cr(u, e) == crate::sums::total(
                    |i: int| crate::dct_laws::cosine_term(cr, x[i], i, k, e),
                    x.len(),
                )
        };
    let s = crate::cosine_laws::scale(flat, wave, k);
    assert(call_ensures(M::normalized, (m, u, k as usize, ni as usize), out[k]));
    assert(2 as real * val(out[k]) == val(u) * s);
    let term = |i: int| crate::dct_laws::cosine_term(cr, x[i], i, k, 0);
    let product = |i: int| val(x[i]) * crate::plane_laws::entry(entries, basis, ni, k, i);
    assert(cr(u, 0) == crate::sums::total(term, n));
    assert(cr(u, 0) == val(u) * c(0));
    let number = val(u);
    assert(number * (1 as real) == number) by (nonlinear_arith);
    crate::sums::lemma_total_scale(term, n, s);
    crate::sums::lemma_total_scale(product, n, 2 as real);
    let one = |i: int| term(i) * s;
    let two = |i: int| product(i) * (2 as real);
    assert forall|i: int| 0 <= i < n implies #[trigger] one(i) == two(i) by {
        lemma_term(cr, val, c, ni, x[i], i, k);
        assert(crate::plane_laws::entry(entries, basis, ni, k, i) == s * c((2 * i + 1) * k));
        let (v, w) = (val(x[i]), c((2 * i + 1) * k));
        assert((2 as real * (v * w)) * s == (v * (s * w)) * (2 as real)) by (nonlinear_arith);
    }
    crate::sums::lemma_total_equal(one, two, n);
}

/// In exact arithmetic the DCT-III by way of the FFT is the product with the
/// transposed orthonormal cosine basis.
pub proof fn law_dct3_is_the_transposed_product<M: SpectrumMath, S>(
    m: &M,
    co: spec_fn(M::Complex, int) -> real,
    cr: spec_fn(M::Real, int) -> real,
    val: spec_fn(M::Real) -> real,
    c: spec_fn(int) -> real,
    flat: real,
    wave: real,
    bins: Seq<M::Real>,
    f: Seq<usize>,
    out: Seq<M::Real>,
    entries: spec_fn(S) -> real,
    basis: Seq<S>,
    i: int,
)
    requires
        spectrum_exact(m, co, cr, val, c, flat, wave, bins.len() as int),
        crate::cosine_laws::is_cosine_basis(entries, c, flat, wave, basis, bins.len()),
        crate::fft_plan::all_positive(f),
        bins.len() == crate::fft_plan::product(f),
        bins.len() <= usize::MAX,
        bins.len() % 2 == 0,
        crate::fft_stages::dct3(m, bins, f, out),
        0 <= i < bins.len(),
    ensures
        out.len() == bins.len(),
        val(out[i]) == crate::sums::total(
            |k: int|
                val(bins[k]) * crate::plane_laws::entry(entries, basis, bins.len() as int, k, i),
            bins.len(),
        ),
{
    let n = bins.len();
    let ni = n as int;
    let nr = n as real;
    crate::dct_laws::law_dct3_sums_cosines(m, co, cr, bins, f, out, i);
    let u = choose|u: Seq<M::Real>|
        {
            &&& #[trigger] u.len() == bins.len()
            &&& forall|k: int|
                0 <= k < bins.len() ==> call_ensures(
                    M::unnormalized,
                    (m, bins[k], k as usize, bins.len() as usize),
                    #[trigger] u[k],
                )
            &&& forall|e: int|
                2 as real * (bins.len() as real * #[trigger] cr(out[i], e)) == cr(u[0], e)
                    + crate::sums::total(
                    |j: int| crate::dct_laws::cosine_term(cr, u[j + 1], i, j + 1, e),
                    (bins.len() - 1) as nat,
                )
        };
    let less = (n - 1) as nat;
    let term = |j: int| crate::dct_laws::cosine_term(cr, u[j + 1], i, j + 1, 0);
    let product = |k: int| val(bins[k]) * crate::plane_laws::entry(entries, basis, ni, k, i);
    let sum = crate::sums::total(product, n);
    assert(2 as real * (nr * cr(out[i], 0)) == cr(u[0], 0) + crate::sums::total(term, less));
    let (o, first) = (val(out[i]), val(u[0]));
    assert(cr(out[i], 0) == o * c(0) && cr(u[0], 0) == first * c(0));
    assert(o * (1 as real) == o && first * (1 as real) == first) by (nonlinear_arith);
    // Bin 0.
    let by = 2 as real * nr;
    crate::sums::lemma_total_split(product, 1, less);
    assert(crate::sums::total(product, 0) == 0 as real);
    assert(crate::sums::total(product, 1) == product(0));
    assert(first == product(0) * by) by {
        assert(call_ensures(M::unnormalized, (m, bins[0], 0usize, ni as usize), u[0]));
        assert(first * flat == 2 as real * val(bins[0]));
        assert((2 * i + 1) * 0 == 0) by (nonlinear_arith);
        let b = val(bins[0]);
        let one = c(0);
        assert(crate::plane_laws::entry(entries, basis, ni, 0, i) == flat * one);
        assert(first == (b * (flat * one)) * by) by (nonlinear_arith)
            requires
                first * flat == 2 as real * b,
                flat * flat * nr == 1 as real,
                one == 1 as real,
                by == 2 as real * nr,
        {
            assert(first * (flat * flat * nr) == (first * flat) * (flat * nr));
            assert((b * (flat * one)) * by == (2 as real * b) * (flat * nr));
        }
    }
    // The others.
    let rest = |j: int| product(1 + j);
    crate::sums::lemma_total_scale(rest, less, by);
    let scaled = |j: int| rest(j) * by;
    assert forall|j: int| 0 <= j < less implies #[trigger] term(j) == scaled(j) by {
        let k = j + 1;
        lemma_term(cr, val, c, ni, u[k], i, k);
        assert(call_ensures(M::unnormalized, (m, bins[k], k as usize, ni as usize), u[k]));
        let (b, v, w) = (val(bins[k]), val(u[k]), c((2 * i + 1) * k));
        assert(v * wave == 2 as real * b);
        assert(crate::plane_laws::entry(entries, basis, ni, k, i) == wave * w);
        assert(2 as real * (v * w) == (b * (wave * w)) * by) by (nonlinear_arith)
            requires
                v * wave == 2 as real * b,
                wave * wave * nr == 2 as real,
                by == 2 as real * nr,
        {
            assert((v * w) * (wave * wave * nr) == (v * wave) * (wave * w * nr));
            assert((b * (wave * w)) * by == (2 as real * b) * (wave * w * nr));
        }
    }
    crate::sums::lemma_total_equal(term, scaled, less);
    let (p, r) = (product(0), crate::sums::total(rest, less));
    assert(o == p + r) by (nonlinear_arith)
        requires
            2 as real * (nr * o) == p * by + r * by,
            by == 2 as real * nr,
            nr > 0 as real,
    {
        assert(by * (o - (p + r)) == 0 as real);
    }
}

/// The numbers of the basis of length `n`, cell `k * n + i`.
pub open spec fn cosine_cells(c: spec_fn(int) -> real, flat: real, wave: real, n: nat) -> Seq<real> {
    Seq::new(n * n, |at: int| cosine_entry(c, flat, wave, at / n as int, at % n as int))
}

/// They are a cosine basis.
proof fn lemma_cosine_cells(c: spec_fn(int) -> real, flat: real, wave: real, n: nat)
    requires
        crate::cosine_laws::is_cosine(c, n as int),
        flat * flat * n as real == 1 as real,
        wave * wave * n as real == 2 as real,
    ensures
        crate::cosine_laws::is_cosine_basis(
            |r: real| r,
            c,
            flat,
            wave,
            cosine_cells(c, flat, wave, n),
            n,
        ),
{
    let ni = n as int;
    let id = |r: real| r;
    let cells = cosine_cells(c, flat, wave, n);
    assert forall|k: int, i: int| 0 <= k < n && 0 <= i < n implies
        #[trigger] crate::plane_laws::entry(id, cells, ni, k, i) == crate::cosine_laws::scale(
        flat,
        wave,
        k,
    ) * c((2 * i + 1) * k) by {
        crate::arith::lemma_cell_bound(k, i, ni, ni);
        crate::arith::lemma_div_mod_of(k * ni + i, ni, k, i);
    }
}

/// The matrix of a transform: the basis, or its transpose for the inverse.
pub open spec fn matrix_for<T>(direction: Direction, basis: Seq<T>, n: int) -> Seq<T> {
    match direction {
        Direction::Forward => basis,
        Direction::Inverse => crate::dct_math::transposed(basis, n),
    }
}

/// Sequence `y` of a batch was transformed: by way of the FFT with the arithmetic
/// `s` where there are factors, else by a basis matrix with the arithmetic `m`.
pub open spec fn sequence_done<S: SpectrumMath, M: PlaneMath<Sample = S::Real>>(
    s: &S,
    m: &M,
    direction: Direction,
    x: Seq<S::Real>,
    n: int,
    factors: Option<Seq<usize>>,
    y: int,
    v: Seq<S::Real>,
) -> bool {
    let (from, to) = (crate::cpu::row_of(x, n, y), crate::cpu::row_of(v, n, y));
    match factors {
        Some(f) => match direction {
            Direction::Forward => crate::fft_stages::dct2(s, from, f, to),
            Direction::Inverse => crate::fft_stages::dct3(s, from, f, to),
        },
        None => exists|basis: Seq<S::Real>|
            {
                &&& #[trigger] crate::dct_math::is_basis(m, n, basis)
                &&& forall|k: int|
                    0 <= k < n ==> #[trigger] crate::cpu::row_cell(
                        m,
                        x,
                        n,
                        matrix_for(direction, basis, n),
                        false,
                        k,
                        y,
                        v[y * n + k],
                    )
            },
    }
}

/// The device transforms every sequence of its batches of length `n`, each by
/// itself.
pub open spec fn runs_the_transforms<
    S: SpectrumMath,
    M: PlaneMath<Sample = S::Real>,
    D: AxisTransform<Sample = S::Real>,
>(s: &S, m: &M, device: &D, n: usize) -> bool {
    forall|
        direction: Direction,
        x: Seq<S::Real>,
        factors: Option<Seq<usize>>,
        batch: usize,
        v: Vec<S::Real>,
        y: int,
    |
        #![trigger crate::fft_plane::returned(device, direction, x, n, factors, batch, Ok(v)),
            sequence_done(s, m, direction, x, n as int, factors, y, v@)]
        crate::fft_plane::returned(device, direction, x, n, factors, batch, Ok(v))
            && crate::fft_plane::runnable(n as nat, factors) && x.len() == n * batch && v@.len()
            == x.len() && 0 <= y < batch ==> sequence_done(
            s,
            m,
            direction,
            x,
            n as int,
            factors,
            y,
            v@,
        )
}

/// Element `k` of a sequence that was transformed, as a number.
proof fn lemma_sequence<S: SpectrumMath, M: PlaneMath<Sample = S::Real>>(
    s: &S,
    m: &M,
    co: spec_fn(S::Complex, int) -> real,
    cr: spec_fn(S::Real, int) -> real,
    val: spec_fn(S::Real) -> real,
    c: spec_fn(int) -> real,
    flat: real,
    wave: real,
    e: spec_fn(int, int, int) -> real,
    direction: Direction,
    x: Seq<S::Real>,
    n: usize,
    factors: Option<Seq<usize>>,
    y: int,
    v: Seq<S::Real>,
    k: int,
)
    requires
        n > 0,
        n % 2 == 0 ==> spectrum_exact(s, co, cr, val, c, flat, wave, n as int),
        crate::plane_laws::exact(m, val),
        forall|b: Seq<S::Real>| #[trigger]
            crate::dct_math::is_basis(m, n as int, b) ==> crate::cosine_laws::is_cosine_basis(
                val,
                c,
                flat,
                wave,
                b,
                n as nat,
            ),
        forall|k: int, i: int|
            0 <= k < n && 0 <= i < n ==> #[trigger] e(n as int, k, i) == cosine_entry(
                c,
                flat,
                wave,
                k,
                i,
            ),
        crate::fft_plane::runnable(n as nat, factors),
        sequence_done(s, m, direction, x, n as int, factors, y, v),
        0 <= k < n,
    ensures
        crate::plane_laws::entry(val, v, n as int, y, k) == crate::fft_plane_laws::batch_sum(
            val,
            e,
            direction,
            x,
            n as nat,
            y,
            k,
        ),
{
    let ni = n as int;
    let nn = n as nat;
    let (from, to) = (crate::cpu::row_of(x, ni, y), crate::cpu::row_of(v, ni, y));
    let id = |r: real| r;
    let cells = cosine_cells(c, flat, wave, nn);
    let goal = |i: int|
        crate::plane_laws::entry(val, x, ni, y, i) * (match direction {
            Direction::Forward => e(ni, k, i),
            Direction::Inverse => e(ni, i, k),
        });
    match direction {
        Direction::Forward => {
            crate::sums::lemma_total_equal(
                goal,
                |i: int| crate::plane_laws::entry(val, x, ni, y, i) * e(ni, k, i),
                nn,
            );
        },
        Direction::Inverse => {
            crate::sums::lemma_total_equal(
                goal,
                |i: int| crate::plane_laws::entry(val, x, ni, y, i) * e(ni, i, k),
                nn,
            );
        },
    }
    match factors {
        Some(f) => {
            lemma_cosine_cells(c, flat, wave, nn);
            crate::plan_laws::law_split_multiplies_back(nn, f);
            assert(crate::fft_plan::all_positive(f));
            match direction {
                Direction::Forward => {
                    law_dct2_is_the_basis_product(
                        s, co, cr, val, c, flat, wave, from, f, to, id, cells, k,
                    );
                    let got = |i: int| val(from[i]) * crate::plane_laws::entry(id, cells, ni, k, i);
                    assert forall|i: int| 0 <= i < nn implies #[trigger] got(i) == goal(i) by {
                        assert(crate::plane_laws::entry(id, cells, ni, k, i) == e(ni, k, i));
                    }
                    crate::sums::lemma_total_equal(got, goal, nn);
                },
                Direction::Inverse => {
                    law_dct3_is_the_transposed_product(
                        s, co, cr, val, c, flat, wave, from, f, to, id, cells, k,
                    );
                    let got = |i: int| val(from[i]) * crate::plane_laws::entry(id, cells, ni, i, k);
                    assert forall|i: int| 0 <= i < nn implies #[trigger] got(i) == goal(i) by {
                        assert(crate::plane_laws::entry(id, cells, ni, i, k) == e(ni, i, k));
                    }
                    crate::sums::lemma_total_equal(got, goal, nn);
                },
            }
        },
        None => {
            let basis = choose|basis: Seq<S::Real>|
                {
                    &&& #[trigger] crate::dct_math::is_basis(m, ni, basis)
                    &&& forall|k: int|
                        0 <= k < n ==> #[trigger] crate::cpu::row_cell(
                            m,
                            x,
                            ni,
                            matrix_for(direction, basis, ni),
                            false,
                            k,
                            y,
                            v[y * n + k],
                        )
                };
            let used = matrix_for(direction, basis, ni);
            assert(crate::cpu::row_cell(m, x, ni, used, false, k, y, v[y * ni + k]));
            crate::plane_laws::lemma_row_cell(m, val, x, nn, used, false, k, y, v[y * ni + k]);
            let got = |i: int|
                crate::plane_laws::entry(val, x, ni, y, i) * crate::plane_laws::entry(
                    val,
                    used,
                    ni,
                    k,
                    i,
                );
            assert forall|i: int| 0 <= i < nn implies #[trigger] got(i) == goal(i) by {
                match direction {
                    Direction::Forward => {
                        assert(crate::plane_laws::entry(val, basis, ni, k, i) == e(ni, k, i));
                    },
                    Direction::Inverse => {
                        crate::dct_math::law_transpose_swaps_cells(basis, ni, k, i);
                        assert(crate::plane_laws::entry(val, basis, ni, i, k) == e(ni, i, k));
                    },
                }
            }
            crate::sums::lemma_total_equal(got, goal, nn);
        },
    }
}

/// A device that runs the transforms is exact where the arithmetic is, whichever
/// way an axis is transformed. Only even lengths go by way of the FFT.
pub proof fn law_device_is_exact<
    S: SpectrumMath,
    M: PlaneMath<Sample = S::Real>,
    D: AxisTransform<Sample = S::Real>,
>(
    s: &S,
    m: &M,
    device: &D,
    co: spec_fn(S::Complex, int) -> real,
    cr: spec_fn(S::Real, int) -> real,
    val: spec_fn(S::Real) -> real,
    c: spec_fn(int) -> real,
    flat: real,
    wave: real,
    e: spec_fn(int, int, int) -> real,
    n: usize,
)
    requires
        n > 0,
        n % 2 == 0 ==> spectrum_exact(s, co, cr, val, c, flat, wave, n as int),
        crate::plane_laws::exact(m, val),
        forall|b: Seq<S::Real>| #[trigger]
            crate::dct_math::is_basis(m, n as int, b) ==> crate::cosine_laws::is_cosine_basis(
                val,
                c,
                flat,
                wave,
                b,
                n as nat,
            ),
        forall|k: int, i: int|
            0 <= k < n && 0 <= i < n ==> #[trigger] e(n as int, k, i) == cosine_entry(
                c,
                flat,
                wave,
                k,
                i,
            ),
        runs_the_transforms(s, m, device, n),
    ensures
        crate::fft_plane_laws::device_exact(device, val, e, n),
        crate::fft_plane_laws::basis_exact(m, val, e, n as int),
{
    let ni = n as int;
    assert forall|
        direction: Direction,
        x: Seq<S::Real>,
        factors: Option<Seq<usize>>,
        batch: usize,
        v: Vec<S::Real>,
    |
        #[trigger] crate::fft_plane::returned(device, direction, x, n, factors, batch, Ok(v))
            && crate::fft_plane::runnable(n as nat, factors) && x.len() == n * batch && v@.len()
            == x.len() implies crate::fft_plane_laws::batch_exact(
        val,
        e,
        direction,
        x,
        n as nat,
        batch as nat,
        v@,
    ) by {
        assert forall|y: int, k: int| 0 <= y < batch && 0 <= k < n implies
            #[trigger] crate::plane_laws::entry(val, v@, ni, y, k)
            == crate::fft_plane_laws::batch_sum(val, e, direction, x, n as nat, y, k) by {
            assert(sequence_done(s, m, direction, x, ni, factors, y, v@));
            lemma_sequence(
                s, m, co, cr, val, c, flat, wave, e, direction, x, n, factors, y, v@, k,
            );
        }
    }
}

/// A plane comes out the same whether a device runs fast transforms, matrix
/// multiplies or one on either axis, or the CPU multiplies matrices: in exact
/// arithmetic, where the cutoff treats every coefficient one way. What is given
/// for an axis of length `n` are the components for `4 * n` steps, its cosines and
/// its two scales.
pub proof fn law_device_gives_the_matrix_picture<
    S: SpectrumMath,
    M: PlaneMath<Sample = S::Real>,
    D: AxisTransform<Sample = S::Real>,
>(
    s: &S,
    m: &M,
    device: &D,
    co: spec_fn(int) -> spec_fn(S::Complex, int) -> real,
    cr: spec_fn(int) -> spec_fn(S::Real, int) -> real,
    val: spec_fn(S::Real) -> real,
    c: spec_fn(int) -> spec_fn(int) -> real,
    flat: spec_fn(int) -> real,
    wave: spec_fn(int) -> real,
    pixels: Seq<S::Real>,
    w: usize,
    h: usize,
    row_factors: Option<Seq<usize>>,
    col_factors: Option<Seq<usize>>,
    cutoff: M::Cutoff,
    t: M::Threshold,
    out: Seq<S::Real>,
    out_2: Seq<S::Real>,
)
    requires
        crate::plane_laws::exact(m, val),
        w > 0,
        h > 0,
        forall|n: int|
            (n == w || n == h) && n % 2 == 0 ==> #[trigger] spectrum_exact(
                s,
                co(n),
                cr(n),
                val,
                c(n),
                flat(n),
                wave(n),
                n,
            ),
        forall|n: int, b: Seq<S::Real>|
            (n == w || n == h) && #[trigger] crate::dct_math::is_basis(m, n, b)
                ==> crate::cosine_laws::is_cosine_basis(val, c(n), flat(n), wave(n), b, n as nat),
        runs_the_transforms(s, m, device, w),
        runs_the_transforms(s, m, device, h),
        crate::fft_plane::runnable(w as nat, row_factors),
        crate::fft_plane::runnable(h as nat, col_factors),
        pixels.len() == w * h,
        call_ensures(M::threshold, (m, cutoff), t),
        forall|u: M::Threshold, x: int, y: int|
            call_ensures(M::threshold, (m, cutoff), u) && 0 <= x < w && 0 <= y < h
                ==> #[trigger] crate::fft_plane_laws::same_cut(
                m,
                t,
                u,
                w as int,
                h as int,
                x,
                y,
            ),
        crate::fft_plane::plane_by_device(
            m,
            device,
            pixels,
            w,
            h,
            row_factors,
            col_factors,
            t,
            Ok(out),
        ),
        crate::cpu::plane_done(m, pixels, w as int, h as int, cutoff, out_2),
    ensures
        out.len() == pixels.len(),
        out_2.len() == pixels.len(),
        crate::fft_plane_laws::same_numbers(val, out, out_2, w as int, h as int),
{
    let (wi, hi) = (w as int, h as int);
    let e = |n: int, k: int, i: int| cosine_entry(c(n), flat(n), wave(n), k, i);
    assert(wi % 2 == 0 ==> spectrum_exact(
        s,
        co(wi),
        cr(wi),
        val,
        c(wi),
        flat(wi),
        wave(wi),
        wi,
    ));
    assert(hi % 2 == 0 ==> spectrum_exact(
        s,
        co(hi),
        cr(hi),
        val,
        c(hi),
        flat(hi),
        wave(hi),
        hi,
    ));
    law_device_is_exact(
        s, m, device, co(wi), cr(wi), val, c(wi), flat(wi), wave(wi), e, w,
    );
    law_device_is_exact(
        s, m, device, co(hi), cr(hi), val, c(hi), flat(hi), wave(hi), e, h,
    );
    crate::fft_plane_laws::law_both_algorithms_agree(
        m,
        device,
        val,
        e,
        pixels,
        w,
        h,
        row_factors,
        col_factors,
        cutoff,
        t,
        out,
        out_2,
    );
}

} // verus!
