//! What the fast transforms return, as sums over what they were handed, where the
//! arithmetic is exact.
use crate::fft_stages::SpectrumMath;
use vstd::prelude::*;

verus! {

/// The FFT of `N` elements, in place: element `k` becomes the sum of all elements,
/// element `i` turned by `i * k` of `N` parts of a full turn, one way going forth
/// and the other way going back.
pub proof fn law_fft_sums_turned_elements<M: SpectrumMath>(
    m: &M,
    co: spec_fn(M::Complex, int) -> real,
    n: int,
    factors: &[usize],
    inverse: bool,
    k: int,
    e: int,
)
    requires
        crate::fft_laws::exact(m, co, n),
        crate::fft_stages::all_small(factors@),
        crate::fft_plan::product(factors@) <= usize::MAX,
        n % (crate::fft_plan::product(factors@) as int) == 0,
        0 <= k < crate::fft_plan::product(factors@),
    ensures
        forall|data: &mut [M::Complex]|
            (*data)@.len() == crate::fft_plan::product(factors@) && #[trigger] call_ensures(
                crate::fft_stages::fft_mixed_radix::<M>,
                (m, data, factors, inverse),
                (),
            ) ==> {
                let (x, out) = ((*data)@, (*final(data))@);
                let steps = n / x.len() as int;
                &&& out.len() == x.len()
                &&& co(out[k], e) == crate::sums::total(
                    |i: int|
                        co(
                            x[i],
                            if inverse {
                                e + i * k * steps
                            } else {
                                e - i * k * steps
                            },
                        ),
                    x.len(),
                )
            },
{
    let f = factors@;
    assert forall|i: int| 0 <= i < f.len() implies 1 <= #[trigger] f[i] by {}
    assert forall|data: &mut [M::Complex]|
        (*data)@.len() == crate::fft_plan::product(factors@) && #[trigger] call_ensures(
            crate::fft_stages::fft_mixed_radix::<M>,
            (m, data, factors, inverse),
            (),
        ) implies {
        let (x, out) = ((*data)@, (*final(data))@);
        let steps = n / x.len() as int;
        &&& out.len() == x.len()
        &&& co(out[k], e) == crate::sums::total(
            |i: int|
                co(
                    x[i],
                    if inverse {
                        e + i * k * steps
                    } else {
                        e - i * k * steps
                    },
                ),
            x.len(),
        )
    } by {
        let (x, out) = ((*data)@, (*final(data))@);
        let steps = n / x.len() as int;
        crate::fft_laws::law_fft_is_the_dft(m, co, n, x, f, inverse, out, k, e);
        let one = |i: int|
            co(x[i], e - crate::fft_laws::turn(i, k, x.len() as int, n, inverse));
        let two = |i: int|
            co(
                x[i],
                if inverse {
                    e + i * k * steps
                } else {
                    e - i * k * steps
                },
            );
        assert forall|i: int| 0 <= i < x.len() implies #[trigger] one(i) == two(i) by {
            let by = i * k * steps;
            assert(1 * by == by && (-1) * by == -by);
        }
        crate::sums::lemma_total_equal(one, two, x.len());
    }
}

/// The even elements go to the front in order, the odd ones to the back in reverse.
pub proof fn law_interleave_splits_even_and_odd(n: usize, k: usize, even: usize, odd: usize)
    requires
        n % 2 == 0,
        k < n / 2,
        call_ensures(crate::fft_plan::dct_interleave_index, ((2 * k) as usize, n), even),
        call_ensures(crate::fft_plan::dct_interleave_index, ((2 * k + 1) as usize, n), odd),
    ensures
        even == k,
        odd == n - 1 - k,
{
    crate::plan_laws::law_interleave_places(k as int, n as int);
}

/// The permutation before the stages undoes itself with the factors in reverse, so
/// that every place below their product is taken once.
pub proof fn law_digit_reversal_undoes_itself(
    i: usize,
    factors: &[usize],
    reversed: &[usize],
    to: usize,
    back: usize,
)
    requires
        crate::fft_plan::all_positive(factors@),
        i < crate::fft_plan::product(factors@),
        reversed@ == factors@.reverse(),
        call_ensures(crate::fft_plan::digit_reverse_index, (i, factors), to),
        call_ensures(crate::fft_plan::digit_reverse_index, (to, reversed), back),
    ensures
        to < crate::fft_plan::product(factors@),
        back == i,
{
    crate::plan_laws::law_digit_reverse_round_trip(i as nat, factors@);
    crate::fft_plan::lemma_digit_reverse_bound(i as nat, factors@);
}

/// A number stands for itself.
spec fn itself() -> spec_fn(real) -> real {
    |r: real| r
}

/// The matrix of the cosines.
spec fn cosine_matrix(c: spec_fn(int) -> real, flat: real, wave: real, n: nat) -> Seq<real> {
    Seq::new(
        (n * n) as nat,
        |at: int| crate::basis_laws::cosine_entry(c, flat, wave, at / n as int, at % n as int),
    )
}

/// It is the basis of the cosines.
proof fn lemma_cosine_matrix(c: spec_fn(int) -> real, flat: real, wave: real, n: nat)
    requires
        crate::cosine_laws::is_cosine(c, n as int),
        flat * flat * n as real == 1 as real,
        wave * wave * n as real == 2 as real,
    ensures
        crate::cosine_laws::is_cosine_basis(
            itself(),
            c,
            flat,
            wave,
            cosine_matrix(c, flat, wave, n),
            n,
        ),
        forall|k: int, i: int|
            0 <= k < n && 0 <= i < n ==> #[trigger] crate::plane_laws::entry(
                itself(),
                cosine_matrix(c, flat, wave, n),
                n as int,
                k,
                i,
            ) == crate::basis_laws::cosine_entry(c, flat, wave, k, i),
{
    let ni = n as int;
    let b = cosine_matrix(c, flat, wave, n);
    assert forall|k: int, i: int| 0 <= k < n && 0 <= i < n implies #[trigger] crate::plane_laws::entry(
        itself(),
        b,
        ni,
        k,
        i,
    ) == crate::basis_laws::cosine_entry(c, flat, wave, k, i) by {
        crate::arith::lemma_cell_bound(k, i, ni, ni);
        assert(0 <= k * ni) by (nonlinear_arith)
            requires
                0 <= k,
                0 <= ni,
        ;
        crate::arith::lemma_div_mod_of(k * ni + i, ni, k, i);
    }
}

/// The DCT-II of an even number of samples: bin `k` is the sum of the samples, each
/// times cosine `k` at its position.
pub proof fn law_dct2_sums_samples_times_cosines<M: SpectrumMath>(
    m: &M,
    co: spec_fn(M::Complex, int) -> real,
    cr: spec_fn(M::Real, int) -> real,
    val: spec_fn(M::Real) -> real,
    c: spec_fn(int) -> real,
    flat: real,
    wave: real,
    x: &[M::Real],
    factors: &[usize],
    out: Vec<M::Real>,
    k: int,
)
    requires
        crate::basis_laws::spectrum_exact(m, co, cr, val, c, flat, wave, x@.len() as int),
        crate::fft_stages::all_small(factors@),
        x@.len() == crate::fft_plan::product(factors@),
        x@.len() <= usize::MAX,
        x@.len() % 2 == 0,
        call_ensures(crate::fft_stages::dct2_via_fft::<M>, (m, x, factors), out),
        0 <= k < x@.len(),
    ensures
        out@.len() == x@.len(),
        val(out@[k]) == crate::sums::total(
            |i: int| val(x@[i]) * crate::basis_laws::cosine_entry(c, flat, wave, k, i),
            x@.len(),
        ),
{
    let n = x@.len();
    assert forall|i: int| 0 <= i < factors@.len() implies 1 <= #[trigger] factors@[i] by {}
    let b = cosine_matrix(c, flat, wave, n);
    lemma_cosine_matrix(c, flat, wave, n);
    crate::basis_laws::law_dct2_is_the_basis_product(
        m,
        co,
        cr,
        val,
        c,
        flat,
        wave,
        x@,
        factors@,
        out@,
        itself(),
        b,
        k,
    );
    let one = |i: int| val(x@[i]) * crate::plane_laws::entry(itself(), b, n as int, k, i);
    let two = |i: int| val(x@[i]) * crate::basis_laws::cosine_entry(c, flat, wave, k, i);
    assert forall|i: int| 0 <= i < n implies #[trigger] one(i) == two(i) by {
        assert(crate::plane_laws::entry(itself(), b, n as int, k, i)
            == crate::basis_laws::cosine_entry(c, flat, wave, k, i));
    }
    crate::sums::lemma_total_equal(one, two, n);
}

/// The DCT-III of an even number of bins: sample `i` is the sum of the bins, each
/// times its cosine at position `i`.
pub proof fn law_dct3_sums_bins_times_cosines<M: SpectrumMath>(
    m: &M,
    co: spec_fn(M::Complex, int) -> real,
    cr: spec_fn(M::Real, int) -> real,
    val: spec_fn(M::Real) -> real,
    c: spec_fn(int) -> real,
    flat: real,
    wave: real,
    bins: &[M::Real],
    factors: &[usize],
    out: Vec<M::Real>,
    i: int,
)
    requires
        crate::basis_laws::spectrum_exact(m, co, cr, val, c, flat, wave, bins@.len() as int),
        crate::fft_stages::all_small(factors@),
        bins@.len() == crate::fft_plan::product(factors@),
        bins@.len() <= usize::MAX,
        bins@.len() % 2 == 0,
        call_ensures(crate::fft_stages::dct3_via_fft::<M>, (m, bins, factors), out),
        0 <= i < bins@.len(),
    ensures
        out@.len() == bins@.len(),
        val(out@[i]) == crate::sums::total(
            |k: int| val(bins@[k]) * crate::basis_laws::cosine_entry(c, flat, wave, k, i),
            bins@.len(),
        ),
{
    let n = bins@.len();
    assert forall|j: int| 0 <= j < factors@.len() implies 1 <= #[trigger] factors@[j] by {}
    let b = cosine_matrix(c, flat, wave, n);
    lemma_cosine_matrix(c, flat, wave, n);
    crate::basis_laws::law_dct3_is_the_transposed_product(
        m,
        co,
        cr,
        val,
        c,
        flat,
        wave,
        bins@,
        factors@,
        out@,
        itself(),
        b,
        i,
    );
    let one = |k: int| val(bins@[k]) * crate::plane_laws::entry(itself(), b, n as int, k, i);
    let two = |k: int| val(bins@[k]) * crate::basis_laws::cosine_entry(c, flat, wave, k, i);
    assert forall|k: int| 0 <= k < n implies #[trigger] one(k) == two(k) by {
        assert(crate::plane_laws::entry(itself(), b, n as int, k, i)
            == crate::basis_laws::cosine_entry(c, flat, wave, k, i));
    }
    crate::sums::lemma_total_equal(one, two, n);
}

} // verus!
