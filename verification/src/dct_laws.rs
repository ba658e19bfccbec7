//! What the DCT-II and DCT-III by way of the FFT compute where the arithmetic is
//! exact, with components as for the FFT itself over `4 * n` steps to a turn.
use crate::fft_stages::SpectrumMath;
use vstd::prelude::*;

verus! {

/// The values are real: conjugating one changes no component.
pub open spec fn symmetric<V>(co: spec_fn(V, int) -> real) -> bool {
    forall|v: V, e1: int, e2: int|
        #![trigger co(v, e1), co(v, e2)]
        e1 == -e2 ==> co(v, e1) == co(v, e2)
}

/// The forward half of the real operations is exact: samples keep their
/// components, and a bin is a turned value plus its conjugate.
pub open spec fn exact_forward<M: SpectrumMath>(
    m: &M,
    co: spec_fn(M::Complex, int) -> real,
    cr: spec_fn(M::Real, int) -> real,
    n: int,
) -> bool {
    &&& crate::fft_laws::periodic(cr, 4 * n)
    &&& symmetric(cr)
    &&& forall|x: M::Real, v: M::Complex, e: int|
        #![trigger call_ensures(M::lifted, (m, x), v), co(v, e)]
        call_ensures(M::lifted, (m, x), v) ==> co(v, e) == cr(x, e)
    &&& forall|v: M::Complex, k: usize, u: M::Real, e: int|
        #![trigger call_ensures(M::cosine_part, (m, v, k, n as usize), u), cr(u, e)]
        call_ensures(M::cosine_part, (m, v, k, n as usize), u) ==> cr(u, e) == co(v, e - k) + co(
            v,
            -e - k,
        )
}

/// A sum over all elements, taken in the order of the interleave.
proof fn lemma_total_interleaved(c: spec_fn(int) -> real, n: nat, h: nat)
    requires
        n % 2 == 0,
        2 * h <= n,
    ensures
        crate::sums::total(|i: int| c(crate::fft_plan::interleave(i, n as int)), 2 * h)
            == crate::sums::total(c, h) + crate::sums::total(|t: int| c(n - h + t), h),
    decreases h,
{
    let woven = |i: int| c(crate::fft_plan::interleave(i, n as int));
    if h > 0 {
        let less = (h - 1) as nat;
        lemma_total_interleaved(c, n, less);
        assert(crate::sums::total(woven, 2 * h) == crate::sums::total(woven, (2 * h - 1) as nat)
            + woven(2 * h - 1));
        assert(crate::sums::total(woven, (2 * h - 1) as nat) == crate::sums::total(woven, 2 * less)
            + woven(2 * h - 2));
        assert(woven(2 * h - 2) == c(h - 1));
        assert(woven(2 * h - 1) == c(n - h));
        let tail = |t: int| c(n - h + t);
        crate::sums::lemma_total_split(tail, 1, less);
        assert(crate::sums::total(tail, 0) == 0 as real);
        assert(crate::sums::total(tail, 1) == tail(0));
        crate::sums::lemma_total_equal(
            |t: int| tail(1 + t),
            |t: int| c(n - less + t),
            less,
        );
    }
}

/// The whole sum in the order of the interleave.
proof fn lemma_total_reordered(c: spec_fn(int) -> real, n: nat)
    requires
        n % 2 == 0,
    ensures
        crate::sums::total(|i: int| c(crate::fft_plan::interleave(i, n as int)), n)
            == crate::sums::total(c, n),
{
    let half = n / 2;
    lemma_total_interleaved(c, n, half);
    crate::sums::lemma_total_split(c, half, half);
    crate::sums::lemma_total_equal(|t: int| c(n - half + t), |t: int| c(half + t), half);
}

/// The FFT's value `k` over interleaved samples, in terms of the samples.
proof fn lemma_spectrum<M: SpectrumMath>(
    m: &M,
    co: spec_fn(M::Complex, int) -> real,
    cr: spec_fn(M::Real, int) -> real,
    x: Seq<M::Real>,
    f: Seq<usize>,
    v: Seq<M::Complex>,
    spectrum: Seq<M::Complex>,
    k: int,
    e: int,
)
    requires
        crate::fft_laws::exact(m, co, 4 * x.len() as int),
        exact_forward(m, co, cr, x.len() as int),
        crate::fft_plan::all_positive(f),
        x.len() == crate::fft_plan::product(f),
        x.len() <= usize::MAX,
        x.len() % 2 == 0,
        crate::fft_stages::interleaved(m, x, v),
        crate::fft_stages::transforms(m, v, f, false, spectrum),
        0 <= k < x.len(),
    ensures
        spectrum.len() == x.len(),
        co(spectrum[k], e) == crate::sums::total(
            |i: int| cr(x[i], e - 4 * (crate::fft_plan::interleave(i, x.len() as int) * k)),
            x.len(),
        ),
{
    let n = x.len();
    let ni = n as int;
    crate::fft_plan::lemma_product_positive(f);
    crate::arith::lemma_div_mod_of(4 * ni, ni, 4, 0);
    crate::fft_laws::law_fft_is_the_dft(m, co, 4 * ni, v, f, false, spectrum, k, e);
    let c = |j: int| co(v[j], e - 4 * (j * k));
    crate::sums::lemma_total_equal(
        |j: int| co(v[j], e - crate::fft_laws::turn(j, k, v.len() as int, 4 * ni, false)),
        c,
        n,
    );
    lemma_total_reordered(c, n);
    let woven = |i: int| c(crate::fft_plan::interleave(i, ni));
    let d = |i: int| cr(x[i], e - 4 * (crate::fft_plan::interleave(i, ni) * k));
    assert forall|i: int| 0 <= i < n implies #[trigger] woven(i) == d(i) by {
        let at = crate::fft_plan::interleave(i, ni);
        assert(call_ensures(M::lifted, (m, x[i]), v[at]));
    }
    crate::sums::lemma_total_equal(woven, d, n);
}

/// The angle of sample `i` in bin `k`: after the interleave it is that of the
/// DCT-II, `(2 * i + 1) * k` steps of a full turn over `4 * n`, or its negative.
pub proof fn law_interleave_gives_the_cosine_angles(i: int, k: int, n: int)
    requires
        0 <= i < n,
        n % 2 == 0,
    ensures
        i % 2 == 0 ==> (4 * crate::fft_plan::interleave(i, n) + 1) * k == (2 * i + 1) * k,
        i % 2 == 1 ==> (4 * crate::fft_plan::interleave(i, n) + 1) * k == 4 * n * k - (2 * i + 1)
            * k,
{
    if i % 2 == 1 {
        let at = crate::fft_plan::interleave(i, n);
        assert(4 * at + 1 == 4 * n - (2 * i + 1));
        assert((4 * n - (2 * i + 1)) * k == 4 * n * k - (2 * i + 1) * k) by (nonlinear_arith);
    } else {
        assert(4 * crate::fft_plan::interleave(i, n) + 1 == 2 * i + 1);
    }
}

/// Sample `i` times twice the cosine of its angle in bin `k`.
pub open spec fn cosine_term<R>(
    cr: spec_fn(R, int) -> real,
    x: R,
    i: int,
    k: int,
    e: int,
) -> real {
    cr(x, e - (2 * i + 1) * k) + cr(x, e + (2 * i + 1) * k)
}

/// The angle after the interleave gives the cosine term.
proof fn lemma_angle<R>(cr: spec_fn(R, int) -> real, x: R, i: int, k: int, n: int, e: int)
    requires
        crate::fft_laws::periodic(cr, 4 * n),
        0 <= i < n,
        n % 2 == 0,
    ensures
        cosine_term(cr, x, i, k, e) == cr(x, e - (4 * crate::fft_plan::interleave(i, n) + 1) * k)
            + cr(x, e + (4 * crate::fft_plan::interleave(i, n) + 1) * k),
{
    law_interleave_gives_the_cosine_angles(i, k, n);
    if i % 2 == 1 {
        let angle = (4 * crate::fft_plan::interleave(i, n) + 1) * k;
        let phase = (2 * i + 1) * k;
        assert(4 * n * k == k * (4 * n)) by (nonlinear_arith);
        assert(-(4 * n * k) == (-k) * (4 * n)) by (nonlinear_arith);
        vstd::arithmetic::div_mod::lemma_mod_multiples_basic(k, 4 * n);
        vstd::arithmetic::div_mod::lemma_mod_multiples_basic(-k, 4 * n);
        assert((e - angle) - (e + phase) == -(4 * n * k));
        assert((e + angle) - (e - phase) == 4 * n * k);
        assert(cr(x, e - angle) == cr(x, e + phase));
        assert(cr(x, e + angle) == cr(x, e - phase));
    }
}

/// In exact arithmetic a DCT-II bin is, before its scale, the sum of every
/// sample `i` times twice the cosine of `pi * (2 * i + 1) * k / (2 * n)`.
pub proof fn law_dct2_sums_cosines<M: SpectrumMath>(
    m: &M,
    co: spec_fn(M::Complex, int) -> real,
    cr: spec_fn(M::Real, int) -> real,
    x: Seq<M::Real>,
    f: Seq<usize>,
    out: Seq<M::Real>,
    k: int,
)
    requires
        crate::fft_laws::exact(m, co, 4 * x.len() as int),
        exact_forward(m, co, cr, x.len() as int),
        crate::fft_plan::all_positive(f),
        x.len() == crate::fft_plan::product(f),
        x.len() <= usize::MAX,
        x.len() % 2 == 0,
        crate::fft_stages::dct2(m, x, f, out),
        0 <= k < x.len(),
    ensures
        exists|u: M::Real|
            {
                &&& #[trigger] call_ensures(
                    M::normalized,
                    (m, u, k as usize, x.len() as usize),
                    out[k],
                )
                &&& forall|e: int|
                    #[trigger] cr(u, e) == crate::sums::total(
                        |i: int| cosine_term(cr, x[i], i, k, e),
                        x.len(),
                    )
            },
{
    let n = x.len();
    let ni = n as int;
    let (v, spectrum) = choose|v: Seq<M::Complex>, spectrum: Seq<M::Complex>|
        {
            &&& crate::fft_stages::interleaved(m, x, v)
            &&& #[trigger] crate::fft_stages::transforms(m, v, f, false, spectrum)
            &&& spectrum.len() == x.len()
            &&& forall|k: int|
                0 <= k < x.len() ==> #[trigger] crate::fft_stages::dct2_bin(
                    m,
                    spectrum[k],
                    k,
                    x.len() as int,
                    out[k],
                )
        };
    assert(crate::fft_stages::dct2_bin(m, spectrum[k], k, ni, out[k]));
    let u = choose|u: M::Real|
        {
            &&& call_ensures(M::cosine_part, (m, spectrum[k], k as usize, ni as usize), u)
            &&& #[trigger] call_ensures(M::normalized, (m, u, k as usize, ni as usize), out[k])
        };
    assert forall|e: int| #[trigger] cr(u, e) == crate::sums::total(
        |i: int| cosine_term(cr, x[i], i, k, e),
        n,
    ) by {
        lemma_cosine_part(m, co, cr, x, f, v, spectrum, k, u, e);
    }
}

/// The bin that value `k` of the spectrum gives.
proof fn lemma_cosine_part<M: SpectrumMath>(
    m: &M,
    co: spec_fn(M::Complex, int) -> real,
    cr: spec_fn(M::Real, int) -> real,
    x: Seq<M::Real>,
    f: Seq<usize>,
    v: Seq<M::Complex>,
    spectrum: Seq<M::Complex>,
    k: int,
    u: M::Real,
    e: int,
)
    requires
        crate::fft_laws::exact(m, co, 4 * x.len() as int),
        exact_forward(m, co, cr, x.len() as int),
        crate::fft_plan::all_positive(f),
        x.len() == crate::fft_plan::product(f),
        x.len() <= usize::MAX,
        x.len() % 2 == 0,
        crate::fft_stages::interleaved(m, x, v),
        crate::fft_stages::transforms(m, v, f, false, spectrum),
        0 <= k < x.len(),
        call_ensures(M::cosine_part, (m, spectrum[k], k as usize, x.len() as usize), u),
    ensures
        cr(u, e) == crate::sums::total(|i: int| cosine_term(cr, x[i], i, k, e), x.len()),
{
    let n = x.len();
    let ni = n as int;
    lemma_spectrum(m, co, cr, x, f, v, spectrum, k, e - k);
    lemma_spectrum(m, co, cr, x, f, v, spectrum, k, -e - k);
    assert(cr(u, e) == co(spectrum[k], e - k) + co(spectrum[k], -e - k));
    let c = |i: int| cr(x[i], e - k - 4 * (crate::fft_plan::interleave(i, ni) * k));
    let d = |i: int| cr(x[i], -e - k - 4 * (crate::fft_plan::interleave(i, ni) * k));
    crate::sums::lemma_total_plus(c, d, n);
    let both = |i: int| c(i) + d(i);
    let term = |i: int| cosine_term(cr, x[i], i, k, e);
    assert forall|i: int| 0 <= i < n implies #[trigger] both(i) == term(i) by {
        let at = crate::fft_plan::interleave(i, ni);
        let angle = (4 * at + 1) * k;
        assert(angle == 4 * (at * k) + k) by (nonlinear_arith)
            requires
                angle == (4 * at + 1) * k,
        ;
        lemma_angle(cr, x[i], i, k, ni, e);
        assert(c(i) == cr(x[i], e - angle));
        assert(d(i) == cr(x[i], -e - angle));
        assert(d(i) == cr(x[i], e + angle));
    }
    crate::sums::lemma_total_equal(both, term, n);
}

/// The backward half of the real operations is exact.
pub open spec fn exact_backward<M: SpectrumMath>(
    m: &M,
    co: spec_fn(M::Complex, int) -> real,
    cr: spec_fn(M::Real, int) -> real,
    n: int,
) -> bool {
    &&& forall|u: M::Real, v: M::Complex, e: int|
        #![trigger call_ensures(M::first_bin, (m, u), v), co(v, e)]
        call_ensures(M::first_bin, (m, u), v) ==> 2 as real * co(v, e) == cr(u, e)
    &&& forall|u: M::Real, v: M::Complex, e: int|
        #![trigger call_ensures(M::middle_bin, (m, u), v), cr(u, e)]
        call_ensures(M::middle_bin, (m, u), v) ==> co(v, e - n / 2) + co(v, e + n / 2) == cr(u, e)
    &&& forall|u: M::Real, t: M::Real, k: usize, v: M::Complex, e: int|
        #![trigger call_ensures(M::paired_bin, (m, u, t, k, n as usize), v), co(v, e)]
        call_ensures(M::paired_bin, (m, u, t, k, n as usize), v) ==> 2 as real * co(v, e) == cr(
            u,
            e + k,
        ) + cr(t, e + k - n)
    &&& forall|v: M::Complex, z: M::Complex, e: int|
        #![trigger call_ensures(M::mirrored, (m, v), z), co(z, e)]
        call_ensures(M::mirrored, (m, v), z) ==> co(z, e) == co(v, -e)
    &&& forall|v: M::Complex, x: M::Real, e: int|
        #![trigger call_ensures(M::sample, (m, v, n as usize), x), cr(x, e)]
        call_ensures(M::sample, (m, v, n as usize), x) ==> 2 as real * (n as real * cr(x, e))
            == co(v, e) + co(v, -e)
}

/// Taking the scale off a bin that was just given it changes no component.
pub open spec fn scale_undone<M: SpectrumMath>(
    m: &M,
    cr: spec_fn(M::Real, int) -> real,
    n: int,
) -> bool {
    forall|u: M::Real, k: usize, a: M::Real, b: M::Real, e: int|
        #![trigger call_ensures(M::normalized, (m, u, k, n as usize), a), call_ensures(M::unnormalized, (m, a, k, n as usize), b), cr(b, e)]
        call_ensures(M::normalized, (m, u, k, n as usize), a) && call_ensures(
            M::unnormalized,
            (m, a, k, n as usize),
            b,
        ) ==> cr(b, e) == cr(u, e)
}

/// Where cycles of even length vanish, half a turn negates.
proof fn lemma_half_turn<V>(co: spec_fn(V, int) -> real, n: nat, v: V, e: int)
    requires
        n > 0,
        n % 2 == 0,
        crate::fft_laws::periodic(co, 4 * n as int),
        crate::fft_laws::cycles_vanish(co, 4 * n as int, n),
    ensures
        co(v, e + 2 * n) == -co(v, e),
{
    let ni = n as int;
    let half = n / 2;
    assert((half as int) % ni != 0) by {
        crate::arith::lemma_div_mod_of(half as int, ni, 0, half as int);
    }
    assert(crate::fft_laws::cycle(co, 4 * ni, n, v, e, half as int) == 0 as real);
    let c = |k: int| co(v, e + crate::fft_laws::turn(half as int, k, ni, 4 * ni, false));
    crate::sums::lemma_total_blocks(c, half, 2);
    assert(half * 2 == n);
    let pair = |i: int| crate::sums::total(|j: int| c(i * 2 + j), 2);
    let value = co(v, e) + co(v, e + 2 * ni);
    assert forall|i: int| 0 <= i < half implies #[trigger] pair(i) == value by {
        let d = |j: int| c(i * 2 + j);
        assert(crate::sums::total(d, 0) == 0 as real);
        assert(crate::sums::total(d, 1) == d(0));
        assert(crate::sums::total(d, 2) == d(0) + d(1));
        crate::arith::lemma_div_mod_of(4 * ni, ni, 4, 0);
        assert(half as int * (i * 2) * 4 == i * (4 * ni)) by (nonlinear_arith)
            requires
                2 * half == ni,
        ;
        assert(half as int * (i * 2 + 1) * 4 == i * (4 * ni) + 2 * ni) by (nonlinear_arith)
            requires
                2 * half == ni,
        ;
        vstd::arithmetic::div_mod::lemma_mod_multiples_basic(i, 4 * ni);
        assert(d(0) == co(v, e + i * (4 * ni)));
        assert(d(1) == co(v, e + (i * (4 * ni) + 2 * ni)));
        assert(co(v, e + i * (4 * ni)) == co(v, e)) by {
            assert((e + i * (4 * ni)) - e == i * (4 * ni));
        }
        assert(co(v, e + (i * (4 * ni) + 2 * ni)) == co(v, e + 2 * ni)) by {
            assert((e + (i * (4 * ni) + 2 * ni)) - (e + 2 * ni) == i * (4 * ni));
        }
    }
    crate::sums::lemma_total_constant(pair, half, value);
    assert(value == 0 as real) by (nonlinear_arith)
        requires
            half as real * value == 0 as real,
            half as real > 0 as real,
    ;
}

/// Conjugate symmetry: over real samples, mirrored values of the spectrum are
/// conjugates.
proof fn lemma_mirror<M: SpectrumMath>(
    m: &M,
    co: spec_fn(M::Complex, int) -> real,
    cr: spec_fn(M::Real, int) -> real,
    x: Seq<M::Real>,
    f: Seq<usize>,
    v: Seq<M::Complex>,
    spectrum: Seq<M::Complex>,
    k: int,
    k2: int,
    e: int,
)
    requires
        crate::fft_laws::exact(m, co, 4 * x.len() as int),
        exact_forward(m, co, cr, x.len() as int),
        crate::fft_plan::all_positive(f),
        x.len() == crate::fft_plan::product(f),
        x.len() <= usize::MAX,
        x.len() % 2 == 0,
        crate::fft_stages::interleaved(m, x, v),
        crate::fft_stages::transforms(m, v, f, false, spectrum),
        0 <= k < x.len(),
        0 <= k2 < x.len(),
        k + k2 == 0 || k + k2 == x.len(),
    ensures
        co(spectrum[k2], e) == co(spectrum[k], -e),
{
    let n = x.len();
    let ni = n as int;
    lemma_spectrum(m, co, cr, x, f, v, spectrum, k2, e);
    lemma_spectrum(m, co, cr, x, f, v, spectrum, k, -e);
    let c = |i: int| cr(x[i], e - 4 * (crate::fft_plan::interleave(i, ni) * k2));
    let d = |i: int| cr(x[i], -e - 4 * (crate::fft_plan::interleave(i, ni) * k));
    assert forall|i: int| 0 <= i < n implies #[trigger] c(i) == d(i) by {
        let at = crate::fft_plan::interleave(i, ni);
        let e1 = e - 4 * (at * k2);
        let e2 = -e - 4 * (at * k);
        let t: int = if k + k2 == 0 {
            0
        } else {
            -at
        };
        assert(e1 - (-e2) == t * (4 * ni)) by (nonlinear_arith)
            requires
                e1 == e - 4 * (at * k2),
                e2 == -e - 4 * (at * k),
                k + k2 == 0 && t == 0 || k + k2 == ni && t == -at,
        ;
        vstd::arithmetic::div_mod::lemma_mod_multiples_basic(t, 4 * ni);
        assert(cr(x[i], e1) == cr(x[i], -e2));
        assert(cr(x[i], -e2) == cr(x[i], e2));
    }
    crate::sums::lemma_total_equal(c, d, n);
}

/// The rebuilt spectrum has the components of the one the bins came from.
proof fn lemma_rebuilt<M: SpectrumMath>(
    m: &M,
    co: spec_fn(M::Complex, int) -> real,
    cr: spec_fn(M::Real, int) -> real,
    x: Seq<M::Real>,
    f: Seq<usize>,
    v: Seq<M::Complex>,
    spectrum: Seq<M::Complex>,
    u: Seq<M::Real>,
    again: Seq<M::Complex>,
    k: int,
    e: int,
)
    requires
        crate::fft_laws::exact(m, co, 4 * x.len() as int),
        crate::fft_laws::cycles_vanish(co, 4 * x.len() as int, x.len()),
        exact_forward(m, co, cr, x.len() as int),
        exact_backward(m, co, cr, x.len() as int),
        crate::fft_plan::all_positive(f),
        x.len() == crate::fft_plan::product(f),
        x.len() <= usize::MAX,
        x.len() % 2 == 0,
        crate::fft_stages::interleaved(m, x, v),
        crate::fft_stages::transforms(m, v, f, false, spectrum),
        u.len() == x.len(),
        forall|t: int, d: int|
            0 <= t < x.len() ==> #[trigger] cr(u[t], d) == co(spectrum[t], d - t) + co(
                spectrum[t],
                -d - t,
            ),
        crate::fft_stages::rebuilt(m, u, again),
        0 <= k < x.len(),
    ensures
        co(again[k], e) == co(spectrum[k], e),
{
    let n = x.len();
    let ni = n as int;
    crate::fft_plan::lemma_product_positive(f);
    let half = ni / 2;
    if k == 0 {
        lemma_mirror(m, co, cr, x, f, v, spectrum, 0, 0, e);
        assert(cr(u[0], e) == co(spectrum[0], e) + co(spectrum[0], -e));
    } else if k == half {
        // Both are `u[half]` over the square root of two; apply that root twice.
        let (z, w) = (again[half], spectrum[half]);
        assert forall|d: int| #[trigger] co(z, d - half) + co(z, d + half) == co(w, d - half) + co(
            w,
            d + half,
        ) by {
            lemma_mirror(m, co, cr, x, f, v, spectrum, half, half, -d - half);
            assert(cr(u[half], d) == co(w, d - half) + co(w, -d - half));
        }
        let (d1, d2) = (e - half, e + half);
        assert(co(z, d1 - half) + co(z, d1 + half) == co(w, d1 - half) + co(w, d1 + half));
        assert(co(z, d2 - half) + co(z, d2 + half) == co(w, d2 - half) + co(w, d2 + half));
        assert(d1 + half == e && d2 - half == e && d1 - half == e - ni && d2 + half == e + ni);
        lemma_half_turn(co, n, z, e - ni);
        lemma_half_turn(co, n, w, e - ni);
        assert(e - ni + 2 * n == e + ni);
    } else if k < half {
        lemma_pair(m, co, cr, x, f, v, spectrum, u, again, k, e);
    } else {
        let low = ni - k;
        lemma_pair(m, co, cr, x, f, v, spectrum, u, again, low, -e);
        lemma_mirror(m, co, cr, x, f, v, spectrum, low, k, e);
        assert(call_ensures(M::paired_bin, (m, u[low], u[k], low as usize, ni as usize), again[low])
            && call_ensures(M::mirrored, (m, again[low]), again[ni - low]));
    }
}

/// The general step of the rebuild, below the middle.
proof fn lemma_pair<M: SpectrumMath>(
    m: &M,
    co: spec_fn(M::Complex, int) -> real,
    cr: spec_fn(M::Real, int) -> real,
    x: Seq<M::Real>,
    f: Seq<usize>,
    v: Seq<M::Complex>,
    spectrum: Seq<M::Complex>,
    u: Seq<M::Real>,
    again: Seq<M::Complex>,
    k: int,
    e: int,
)
    requires
        crate::fft_laws::exact(m, co, 4 * x.len() as int),
        crate::fft_laws::cycles_vanish(co, 4 * x.len() as int, x.len()),
        exact_forward(m, co, cr, x.len() as int),
        exact_backward(m, co, cr, x.len() as int),
        crate::fft_plan::all_positive(f),
        x.len() == crate::fft_plan::product(f),
        x.len() <= usize::MAX,
        x.len() % 2 == 0,
        crate::fft_stages::interleaved(m, x, v),
        crate::fft_stages::transforms(m, v, f, false, spectrum),
        u.len() == x.len(),
        forall|t: int, d: int|
            0 <= t < x.len() ==> #[trigger] cr(u[t], d) == co(spectrum[t], d - t) + co(
                spectrum[t],
                -d - t,
            ),
        crate::fft_stages::rebuilt(m, u, again),
        1 <= k < x.len() as int / 2,
    ensures
        co(again[k], e) == co(spectrum[k], e),
{
    let n = x.len();
    let ni = n as int;
    let w = spectrum[k];
    assert(call_ensures(M::paired_bin, (m, u[k], u[ni - k], k as usize, ni as usize), again[k]));
    assert(2 as real * co(again[k], e) == cr(u[k], e + k) + cr(u[ni - k], e + k - ni));
    assert(cr(u[k], e + k) == co(w, e) + co(w, -e - 2 * k)) by {
        assert((e + k) - k == e && -(e + k) - k == -e - 2 * k);
    }
    let d = e + k - ni;
    assert(cr(u[ni - k], d) == co(spectrum[ni - k], d - (ni - k)) + co(
        spectrum[ni - k],
        -d - (ni - k),
    ));
    lemma_mirror(m, co, cr, x, f, v, spectrum, k, ni - k, d - (ni - k));
    lemma_mirror(m, co, cr, x, f, v, spectrum, k, ni - k, -d - (ni - k));
    assert(-(d - (ni - k)) == (-e - 2 * k) + 2 * ni);
    assert(-(-d - (ni - k)) == e);
    lemma_half_turn(co, n, w, -e - 2 * k);
}

/// In exact arithmetic the DCT-III undoes the DCT-II: every sample comes back.
pub proof fn law_dct3_undoes_dct2<M: SpectrumMath>(
    m: &M,
    co: spec_fn(M::Complex, int) -> real,
    cr: spec_fn(M::Real, int) -> real,
    x: Seq<M::Real>,
    f: Seq<usize>,
    bins: Seq<M::Real>,
    back: Seq<M::Real>,
    i: int,
    e: int,
)
    requires
        crate::fft_laws::exact(m, co, 4 * x.len() as int),
        crate::fft_laws::cycles_vanish(co, 4 * x.len() as int, x.len()),
        exact_forward(m, co, cr, x.len() as int),
        exact_backward(m, co, cr, x.len() as int),
        scale_undone(m, cr, x.len() as int),
        crate::fft_plan::all_positive(f),
        x.len() == crate::fft_plan::product(f),
        x.len() <= usize::MAX,
        x.len() % 2 == 0,
        crate::fft_stages::dct2(m, x, f, bins),
        crate::fft_stages::dct3(m, bins, f, back),
        0 <= i < x.len(),
    ensures
        back.len() == x.len(),
        cr(back[i], e) == cr(x[i], e),
{
    let n = x.len();
    let ni = n as int;
    crate::fft_plan::lemma_product_positive(f);
    crate::arith::lemma_div_mod_of(4 * ni, ni, 4, 0);
    let (v, spectrum) = choose|v: Seq<M::Complex>, spectrum: Seq<M::Complex>|
        {
            &&& crate::fft_stages::interleaved(m, x, v)
            &&& #[trigger] crate::fft_stages::transforms(m, v, f, false, spectrum)
            &&& spectrum.len() == x.len()
            &&& forall|k: int|
                0 <= k < x.len() ==> #[trigger] crate::fft_stages::dct2_bin(
                    m,
                    spectrum[k],
                    k,
                    x.len() as int,
                    bins[k],
                )
        };
    let (u, again, y) = choose|u: Seq<M::Real>, again: Seq<M::Complex>, y: Seq<M::Complex>|
        {
            &&& u.len() == bins.len()
            &&& forall|k: int|
                0 <= k < bins.len() as int ==> call_ensures(
                    M::unnormalized,
                    (m, bins[k], k as usize, bins.len() as int as usize),
                    #[trigger] u[k],
                )
            &&& #[trigger] crate::fft_stages::rebuilt(m, u, again)
            &&& #[trigger] crate::fft_stages::transforms(m, again, f, true, y)
            &&& y.len() == bins.len()
            &&& forall|i: int|
                0 <= i < bins.len() as int ==> call_ensures(
                    M::sample,
                    (
                        m,
                        y[crate::fft_plan::interleave(i, bins.len() as int)],
                        bins.len() as int as usize,
                    ),
                    #[trigger] back[i],
                )
        };
    assert forall|t: int, d: int| 0 <= t < n implies #[trigger] cr(u[t], d) == co(
        spectrum[t],
        d - t,
    ) + co(spectrum[t], -d - t) by {
        assert(crate::fft_stages::dct2_bin(m, spectrum[t], t, ni, bins[t]));
        let w = choose|w: M::Real|
            {
                &&& call_ensures(M::cosine_part, (m, spectrum[t], t as usize, ni as usize), w)
                &&& #[trigger] call_ensures(M::normalized, (m, w, t as usize, ni as usize), bins[t])
            };
        assert(call_ensures(M::unnormalized, (m, bins[t], t as usize, ni as usize), u[t]));
        assert(cr(u[t], d) == cr(w, d));
    }
    assert forall|k: int, d: int| 0 <= k < n implies co(#[trigger] again[k], d) == #[trigger] co(
        spectrum[k],
        d,
    ) by {
        lemma_rebuilt(m, co, cr, x, f, v, spectrum, u, again, k, d);
    }
    let at = crate::fft_plan::interleave(i, ni);
    crate::plan_laws::law_interleave_is_a_permutation(ni);
    crate::fft_laws::lemma_inverse_of_same(m, co, 4 * ni, v, f, spectrum, again, y, at, e);
    crate::fft_laws::lemma_inverse_of_same(m, co, 4 * ni, v, f, spectrum, again, y, at, -e);
    assert(call_ensures(M::lifted, (m, x[i]), v[at]));
    assert(co(v[at], e) == cr(x[i], e) && co(v[at], -e) == cr(x[i], -e));
    assert(cr(x[i], -e) == cr(x[i], e));
    assert(call_ensures(M::sample, (m, y[at], ni as usize), back[i]));
    let (a, b) = (cr(back[i], e), cr(x[i], e));
    assert(2 as real * (ni as real * a) == n as real * b + n as real * b);
    assert(a == b) by (nonlinear_arith)
        requires
            2 as real * (ni as real * a) == n as real * b + n as real * b,
            ni as real > 0 as real,
            ni as real == n as real,
    ;
}

/// What value `k` of the rebuilt spectrum adds to sample `i`, twice over.
spec fn share<V>(co: spec_fn(V, int) -> real, v: Seq<V>, at: int, e: int, k: int) -> real {
    co(v[k], e + 4 * (k * at)) + co(v[k], -e + 4 * (k * at))
}

/// Two steps that differ by full turns give the same component.
proof fn lemma_full_turns<V>(co: spec_fn(V, int) -> real, n: int, v: V, d1: int, d2: int, t: int)
    requires
        n > 0,
        crate::fft_laws::periodic(co, 4 * n),
        d1 - d2 == t * (4 * n),
    ensures
        co(v, d1) == co(v, d2),
{
    vstd::arithmetic::div_mod::lemma_mod_multiples_basic(t, 4 * n);
}

/// The middle value adds the cosine term of its bin.
proof fn lemma_middle_share<M: SpectrumMath>(
    m: &M,
    co: spec_fn(M::Complex, int) -> real,
    cr: spec_fn(M::Real, int) -> real,
    n: nat,
    u: Seq<M::Real>,
    v: Seq<M::Complex>,
    i: int,
    e: int,
)
    requires
        n > 0,
        n % 2 == 0,
        crate::fft_laws::exact(m, co, 4 * n as int),
        crate::fft_laws::cycles_vanish(co, 4 * n as int, n),
        exact_forward(m, co, cr, n as int),
        exact_backward(m, co, cr, n as int),
        u.len() == n,
        crate::fft_stages::rebuilt(m, u, v),
        0 <= i < n,
    ensures
        share(co, v, crate::fft_plan::interleave(i, n as int), e, n as int / 2) == cosine_term(
            cr,
            u[n as int / 2],
            i,
            n as int / 2,
            e,
        ),
{
    let ni = n as int;
    let h = ni / 2;
    let at = crate::fft_plan::interleave(i, ni);
    let (z, b) = (v[h], u[h]);
    assert(call_ensures(M::middle_bin, (m, b), z));
    let s = 2 * ni * at;
    assert(4 * (h * at) == s) by (nonlinear_arith)
        requires
            s == 2 * ni * at,
            2 * h == ni,
    ;
    let angle = (4 * at + 1) * h;
    assert(angle == s + h) by (nonlinear_arith)
        requires
            angle == (4 * at + 1) * h,
            s == 2 * ni * at,
            2 * h == ni,
    ;
    lemma_angle(cr, b, i, h, ni, e);
    assert(cosine_term(cr, b, i, h, e) == cr(b, e - angle) + cr(b, e + angle));
    lemma_middle_bin_at(m, co, cr, n, b, z, e + angle);
    lemma_middle_bin_at(m, co, cr, n, b, z, e - angle);
    assert(e + angle - h == e + s && e + angle + h == e + s + ni);
    assert(e - angle - h == e - s - ni && e - angle + h == e - s);
    lemma_opposite_turns(co, n, z, at, e);
    lemma_middle_is_real(m, co, cr, n, b, z, e + s);
    assert(-(e + s) == -e - s);
    assert((-e + s) - (-e - s) == at * (4 * ni)) by (nonlinear_arith)
        requires
            s == 2 * ni * at,
    ;
    lemma_full_turns(co, ni, z, -e + s, -e - s, at);
}

/// The middle bin in terms of the middle value.
proof fn lemma_middle_bin_at<M: SpectrumMath>(
    m: &M,
    co: spec_fn(M::Complex, int) -> real,
    cr: spec_fn(M::Real, int) -> real,
    n: nat,
    b: M::Real,
    z: M::Complex,
    d: int,
)
    requires
        exact_backward(m, co, cr, n as int),
        call_ensures(M::middle_bin, (m, b), z),
    ensures
        cr(b, d) == co(z, d - n as int / 2) + co(z, d + n as int / 2),
{
}

/// Components a multiple of half a turn either way, and a quarter turn on.
proof fn lemma_opposite_turns<V>(co: spec_fn(V, int) -> real, n: nat, z: V, at: int, e: int)
    requires
        n > 0,
        n % 2 == 0,
        crate::fft_laws::periodic(co, 4 * n as int),
        crate::fft_laws::cycles_vanish(co, 4 * n as int, n),
    ensures
        co(z, e - 2 * n * at) == co(z, e + 2 * n * at),
        co(z, e - 2 * n * at - n) == -co(z, e + 2 * n * at + n),
{
    let ni = n as int;
    let s = 2 * ni * at;
    assert((e + s) - (e - s) == at * (4 * ni)) by (nonlinear_arith)
        requires
            s == 2 * ni * at,
    ;
    lemma_full_turns(co, ni, z, e + s, e - s, at);
    lemma_full_turns(co, ni, z, e + s - ni, e - s - ni, at);
    lemma_half_turn(co, n, z, e + s - ni);
    assert(e + s - ni + 2 * n == e + s + ni);
}

/// The middle value is real.
proof fn lemma_middle_is_real<M: SpectrumMath>(
    m: &M,
    co: spec_fn(M::Complex, int) -> real,
    cr: spec_fn(M::Real, int) -> real,
    n: nat,
    b: M::Real,
    z: M::Complex,
    d: int,
)
    requires
        n > 0,
        n % 2 == 0,
        crate::fft_laws::exact(m, co, 4 * n as int),
        crate::fft_laws::cycles_vanish(co, 4 * n as int, n),
        exact_forward(m, co, cr, n as int),
        exact_backward(m, co, cr, n as int),
        call_ensures(M::middle_bin, (m, b), z),
    ensures
        co(z, d) == co(z, -d),
{
    let h = n as int / 2;
    lemma_doubled(m, co, cr, n, b, z, d);
    lemma_doubled(m, co, cr, n, b, z, -d);
    assert(cr(b, d - h) == cr(b, -d + h));
    assert(cr(b, d + h) == cr(b, -d - h));
}

/// The middle value, doubled, from its bin.
proof fn lemma_doubled<M: SpectrumMath>(
    m: &M,
    co: spec_fn(M::Complex, int) -> real,
    cr: spec_fn(M::Real, int) -> real,
    n: nat,
    b: M::Real,
    z: M::Complex,
    d: int,
)
    requires
        n > 0,
        n % 2 == 0,
        crate::fft_laws::exact(m, co, 4 * n as int),
        crate::fft_laws::cycles_vanish(co, 4 * n as int, n),
        exact_backward(m, co, cr, n as int),
        call_ensures(M::middle_bin, (m, b), z),
    ensures
        2 as real * co(z, d) == cr(b, d - n as int / 2) + cr(b, d + n as int / 2),
{
    let ni = n as int;
    let h = ni / 2;
    assert(cr(b, d - h) == co(z, d - h - h) + co(z, d - h + h));
    assert(cr(b, d + h) == co(z, d + h - h) + co(z, d + h + h));
    assert(d - h - h == d - ni && d - h + h == d && d + h - h == d && d + h + h == d + ni);
    lemma_half_turn(co, n, z, d - ni);
    assert(d - ni + 2 * n == d + ni);
}

/// A value below the middle and its mirror image add the cosine terms of their
/// two bins.
proof fn lemma_pair_share<M: SpectrumMath>(
    m: &M,
    co: spec_fn(M::Complex, int) -> real,
    cr: spec_fn(M::Real, int) -> real,
    n: nat,
    u: Seq<M::Real>,
    v: Seq<M::Complex>,
    i: int,
    e: int,
    k: int,
)
    requires
        n > 0,
        n % 2 == 0,
        crate::fft_laws::exact(m, co, 4 * n as int),
        exact_forward(m, co, cr, n as int),
        exact_backward(m, co, cr, n as int),
        n <= usize::MAX,
        u.len() == n,
        crate::fft_stages::rebuilt(m, u, v),
        0 <= i < n,
        1 <= k < n as int / 2,
    ensures
        share(co, v, crate::fft_plan::interleave(i, n as int), e, k) + share(
            co,
            v,
            crate::fft_plan::interleave(i, n as int),
            e,
            n - k,
        ) == cosine_term(cr, u[k], i, k, e) + cosine_term(cr, u[n - k], i, n - k, e),
{
    let ni = n as int;
    let at = crate::fft_plan::interleave(i, ni);
    let (z, b, t) = (v[k], u[k], u[ni - k]);
    assert(call_ensures(M::paired_bin, (m, b, t, k as usize, ni as usize), z));
    assert(call_ensures(M::mirrored, (m, z), v[ni - k]));
    let s = 4 * (k * at);
    let s2 = 4 * ((ni - k) * at);
    assert(s2 == at * (4 * ni) - s) by (nonlinear_arith)
        requires
            s == 4 * (k * at),
            s2 == 4 * ((ni - k) * at),
    ;
    let angle = (4 * at + 1) * k;
    let angle2 = (4 * at + 1) * (ni - k);
    assert(angle == s + k) by (nonlinear_arith)
        requires
            s == 4 * (k * at),
            angle == (4 * at + 1) * k,
    ;
    assert(angle2 == at * (4 * ni) + ni - angle) by (nonlinear_arith)
        requires
            angle == (4 * at + 1) * k,
            angle2 == (4 * at + 1) * (ni - k),
    ;
    // The mirror image adds as much.
    assert(co(v[ni - k], e + s2) == co(z, -(e + s2)));
    assert(co(v[ni - k], -e + s2) == co(z, -(-e + s2)));
    assert((-e + s) - (-(e + s2)) == at * (4 * ni));
    assert((e + s) - (-(-e + s2)) == at * (4 * ni));
    lemma_full_turns(co, ni, z, -e + s, -(e + s2), at);
    lemma_full_turns(co, ni, z, e + s, -(-e + s2), at);
    // Twice the value, from the two bins.
    assert(2 as real * co(z, e + s) == cr(b, e + s + k) + cr(t, e + s + k - ni));
    assert(2 as real * co(z, -e + s) == cr(b, -e + s + k) + cr(t, -e + s + k - ni));
    lemma_angle(cr, b, i, k, ni, e);
    lemma_angle(cr, t, i, ni - k, ni, e);
    assert(cr(b, -e + s + k) == cr(b, e - angle));
    assert(cr(t, -e + s + k - ni) == cr(t, e - angle + ni));
    assert((e + angle2) - (e - angle + ni) == at * (4 * ni));
    assert((e + angle - ni) - (e - angle2) == at * (4 * ni));
    lemma_full_turns(cr, ni, t, e + angle2, e - angle + ni, at);
    lemma_full_turns(cr, ni, t, e + angle - ni, e - angle2, at);
}

/// In exact arithmetic a DCT-III sample `i` is half of bin 0 plus every other
/// bin `k` times the cosine of `pi * (2 * i + 1) * k / (2 * n)`, over the length,
/// the bins taken without their scale.
pub proof fn law_dct3_sums_cosines<M: SpectrumMath>(
    m: &M,
    co: spec_fn(M::Complex, int) -> real,
    cr: spec_fn(M::Real, int) -> real,
    bins: Seq<M::Real>,
    f: Seq<usize>,
    out: Seq<M::Real>,
    i: int,
)
    requires
        crate::fft_laws::exact(m, co, 4 * bins.len() as int),
        crate::fft_laws::cycles_vanish(co, 4 * bins.len() as int, bins.len()),
        exact_forward(m, co, cr, bins.len() as int),
        exact_backward(m, co, cr, bins.len() as int),
        crate::fft_plan::all_positive(f),
        bins.len() == crate::fft_plan::product(f),
        bins.len() <= usize::MAX,
        bins.len() % 2 == 0,
        crate::fft_stages::dct3(m, bins, f, out),
        0 <= i < bins.len(),
    ensures
        out.len() == bins.len(),
        exists|u: Seq<M::Real>|
            {
                &&& #[trigger] u.len() == bins.len()
                &&& forall|k: int|
                    0 <= k < bins.len() ==> call_ensures(
                        M::unnormalized,
                        (m, bins[k], k as usize, bins.len() as usize),
                        #[trigger] u[k],
                    )
                &&& forall|e: int|
                    2 as real * (bins.len() as real * #[trigger] cr(out[i], e)) == cr(u[0], e)
                        + crate::sums::total(
                        |j: int| cosine_term(cr, u[j + 1], i, j + 1, e),
                        (bins.len() - 1) as nat,
                    )
            },
{
    let n = bins.len();
    let ni = n as int;
    crate::fft_plan::lemma_product_positive(f);
    let (u, v, y) = choose|u: Seq<M::Real>, v: Seq<M::Complex>, y: Seq<M::Complex>|
        {
            &&& u.len() == bins.len()
            &&& forall|k: int|
                0 <= k < bins.len() as int ==> call_ensures(
                    M::unnormalized,
                    (m, bins[k], k as usize, bins.len() as int as usize),
                    #[trigger] u[k],
                )
            &&& #[trigger] crate::fft_stages::rebuilt(m, u, v)
            &&& #[trigger] crate::fft_stages::transforms(m, v, f, true, y)
            &&& y.len() == bins.len()
            &&& forall|i: int|
                0 <= i < bins.len() as int ==> call_ensures(
                    M::sample,
                    (
                        m,
                        y[crate::fft_plan::interleave(i, bins.len() as int)],
                        bins.len() as int as usize,
                    ),
                    #[trigger] out[i],
                )
        };
    assert forall|e: int| 2 as real * (n as real * #[trigger] cr(out[i], e)) == cr(u[0], e)
        + crate::sums::total(
        |j: int| cosine_term(cr, u[j + 1], i, j + 1, e),
        (n - 1) as nat,
    ) by {
        lemma_sample(m, co, cr, f, u, v, y, i, e);
        let at = crate::fft_plan::interleave(i, ni);
        assert(call_ensures(M::sample, (m, y[at], ni as usize), out[i]));
    }
}

/// Both mirrored components of a sample, from the bins.
proof fn lemma_sample<M: SpectrumMath>(
    m: &M,
    co: spec_fn(M::Complex, int) -> real,
    cr: spec_fn(M::Real, int) -> real,
    f: Seq<usize>,
    u: Seq<M::Real>,
    v: Seq<M::Complex>,
    y: Seq<M::Complex>,
    i: int,
    e: int,
)
    requires
        crate::fft_laws::exact(m, co, 4 * u.len() as int),
        crate::fft_laws::cycles_vanish(co, 4 * u.len() as int, u.len()),
        exact_forward(m, co, cr, u.len() as int),
        exact_backward(m, co, cr, u.len() as int),
        crate::fft_plan::all_positive(f),
        u.len() == crate::fft_plan::product(f),
        0 < u.len() <= usize::MAX,
        u.len() % 2 == 0,
        crate::fft_stages::rebuilt(m, u, v),
        crate::fft_stages::transforms(m, v, f, true, y),
        0 <= i < u.len(),
    ensures
        co(y[crate::fft_plan::interleave(i, u.len() as int)], e) + co(
            y[crate::fft_plan::interleave(i, u.len() as int)],
            -e,
        ) == cr(u[0], e) + crate::sums::total(
            |j: int| cosine_term(cr, u[j + 1], i, j + 1, e),
            (u.len() - 1) as nat,
        ),
{
    let n = u.len();
    let ni = n as int;
    let at = crate::fft_plan::interleave(i, ni);
    crate::plan_laws::law_interleave_is_a_permutation(ni);
    crate::arith::lemma_div_mod_of(4 * ni, ni, 4, 0);
    crate::fft_laws::law_fft_is_the_dft(m, co, 4 * ni, v, f, true, y, at, e);
    crate::fft_laws::law_fft_is_the_dft(m, co, 4 * ni, v, f, true, y, at, -e);
    let c = |k: int| co(v[k], e - crate::fft_laws::turn(k, at, ni, 4 * ni, true));
    let d = |k: int| co(v[k], -e - crate::fft_laws::turn(k, at, ni, 4 * ni, true));
    crate::sums::lemma_total_equal(
        c,
        |k: int| co(v[k], e - crate::fft_laws::turn(k, at, v.len() as int, 4 * ni, true)),
        n,
    );
    crate::sums::lemma_total_equal(
        d,
        |k: int| co(v[k], -e - crate::fft_laws::turn(k, at, v.len() as int, 4 * ni, true)),
        n,
    );
    crate::sums::lemma_total_plus(c, d, n);
    let s = |k: int| share(co, v, at, e, k);
    crate::sums::lemma_total_equal(|k: int| c(k) + d(k), s, n);
    // Value 0 adds bin 0.
    let less = (n - 1) as nat;
    crate::sums::lemma_total_split(s, 1, less);
    assert(crate::sums::total(s, 0) == 0 as real);
    assert(crate::sums::total(s, 1) == s(0));
    assert(s(0) == cr(u[0], e)) by {
        assert(call_ensures(M::first_bin, (m, u[0]), v[0]));
        assert(0 * at == 0);
        assert(2 as real * co(v[0], e) == cr(u[0], e));
        assert(2 as real * co(v[0], -e) == cr(u[0], -e));
        assert(cr(u[0], -e) == cr(u[0], e));
    }
    // The others pair up.
    let s1 = |j: int| s(1 + j);
    let t1 = |j: int| cosine_term(cr, u[j + 1], i, j + 1, e);
    assert forall|j: int| 0 <= j < less implies #[trigger] s1(j) + s1(less - 1 - j) == t1(j) + t1(
        less - 1 - j,
    ) by {
        let k = j + 1;
        assert(1 + (less - 1 - j) == ni - k);
        if k < ni / 2 {
            lemma_pair_share(m, co, cr, n, u, v, i, e, k);
        } else if k == ni / 2 {
            lemma_middle_share(m, co, cr, n, u, v, i, e);
        } else {
            lemma_pair_share(m, co, cr, n, u, v, i, e, ni - k);
        }
    }
    crate::sums::lemma_total_paired(s1, t1, less);
}

} // verus!
