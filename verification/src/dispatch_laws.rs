//! What the planned GPU passes compute: the same as the transforms on the CPU.
use crate::fft_dispatch::{FftBuffer, FftKernel};
use crate::fft_stages::SpectrumMath;
use vstd::prelude::*;

verus! {

/// What the buffers hold of one sequence of the batch. A buffer holds complex
/// values or real samples, as the kernels that use it take it.
pub ghost struct SequenceState<M: SpectrumMath> {
    pub complex: spec_fn(FftBuffer) -> Seq<M::Complex>,
    pub reals: spec_fn(FftBuffer) -> Seq<M::Real>,
}

/// The direction that a stage's sign word stands for.
pub open spec fn sign_is_inverse(word: u32) -> bool {
    word == 0x3F80_0000
}

/// Element `i` of `x` stands in `y` where the table says.
pub open spec fn moved_by<T>(table: Seq<u32>, n: int, x: Seq<T>, y: Seq<T>) -> bool {
    &&& y.len() == n
    &&& forall|i: int| 0 <= i < n ==> y[table[i] as int] == #[trigger] x[i]
}

/// A pass did to a sequence of length `n` what its kernel stands for, and left
/// the other buffers alone.
pub open spec fn pass_done<M: SpectrumMath>(
    m: &M,
    p: crate::fft_dispatch::PlannedPass,
    n: int,
    before: SequenceState<M>,
    after: SequenceState<M>,
) -> bool {
    &&& forall|other: FftBuffer|
        other != p.to ==> #[trigger] (after.complex)(other) == (before.complex)(other)
    &&& forall|other: FftBuffer|
        other != p.to ==> #[trigger] (after.reals)(other) == (before.reals)(other)
    &&& match p.kernel {
        FftKernel::Permute => moved_by(
            p.table,
            n,
            (before.complex)(p.from),
            (after.complex)(p.to),
        ),
        FftKernel::ForwardPermute => {
            let (x, y) = ((before.reals)(p.from), (after.complex)(p.to));
            y.len() == n && forall|i: int|
                0 <= i < n ==> call_ensures(M::lifted, (m, #[trigger] x[i]), y[p.table[i] as int])
        },
        FftKernel::Stage => crate::fft_stages::stage(
            m,
            (before.complex)(p.from),
            (after.complex)(p.to),
            p.words[1] as int,
            p.words[2] as int,
            sign_is_inverse(p.words[4]),
        ),
        FftKernel::Dct2Post => {
            let (v, y) = ((before.complex)(p.from), (after.reals)(p.to));
            y.len() == n && forall|k: int|
                0 <= k < n ==> #[trigger] crate::fft_stages::dct2_bin(m, v[k], k, n, y[k])
        },
        FftKernel::Dct3Pre => {
            let (bins, v) = ((before.reals)(p.from), (after.complex)(p.to));
            exists|u: Seq<M::Real>|
                {
                    &&& u.len() == n
                    &&& forall|k: int|
                        0 <= k < n ==> call_ensures(
                            M::unnormalized,
                            (m, bins[k], k as usize, n as usize),
                            #[trigger] u[k],
                        )
                    &&& #[trigger] crate::fft_stages::rebuilt(m, u, v)
                }
        },
        FftKernel::Dct3Post => {
            let (v, y) = ((before.complex)(p.from), (after.reals)(p.to));
            y.len() == n && forall|i: int|
                0 <= i < n ==> call_ensures(
                    M::sample,
                    (m, v[p.table[i] as int], n as usize),
                    #[trigger] y[i],
                )
        },
    }
}

/// The passes of a plan were done one after the other.
pub open spec fn run_of<M: SpectrumMath>(
    m: &M,
    plan: Seq<crate::fft_dispatch::PlannedPass>,
    n: int,
    states: Seq<SequenceState<M>>,
) -> bool {
    &&& states.len() == plan.len() + 1
    &&& forall|i: int|
        0 <= i < plan.len() ==> #[trigger] pass_done(m, plan[i], n, states[i], states[i + 1])
}

/// After `s` stages, starting from the state `at`, the work buffer holds what
/// the last `s` factors make of it, and the uploaded data is still there.
proof fn lemma_stage_passes<M: SpectrumMath>(
    m: &M,
    plan: Seq<crate::fft_dispatch::PlannedPass>,
    n: usize,
    f: Seq<usize>,
    batch: usize,
    inverse: bool,
    states: Seq<SequenceState<M>>,
    at: int,
    s: int,
)
    requires
        crate::fft_plan::all_positive(f),
        n == crate::fft_plan::product(f),
        n <= u32::MAX,
        run_of(m, plan, n as int, states),
        0 <= at,
        0 <= s <= f.len(),
        at + f.len() <= plan.len(),
        forall|k: int|
            0 <= k < f.len() ==> plan[at + k] == #[trigger] crate::fft_dispatch::planned_stage(
                n,
                f,
                batch,
                inverse,
                k,
            ),
    ensures
        crate::fft_stages::stages(
            m,
            (states[at].complex)(FftBuffer::Work),
            f.skip(f.len() - s),
            inverse,
            (states[at + s].complex)(FftBuffer::Work),
        ),
        (states[at + s].complex)(FftBuffer::Work).len() == (states[at].complex)(
            FftBuffer::Work,
        ).len(),
        forall|other: FftBuffer|
            other != FftBuffer::Work ==> #[trigger] (states[at + s].reals)(other) == (
            states[at].reals)(other),
    decreases s,
{
    if s == 0 {
        assert(f.skip(f.len() as int) =~= Seq::<usize>::empty());
    } else {
        let k = s - 1;
        lemma_stage_passes(m, plan, n, f, batch, inverse, states, at, k);
        let q = f.len() - s;
        let now = f.skip(q);
        let rest = f.skip(q + 1);
        assert(now.drop_first() =~= rest);
        assert(now[0] == f[q]);
        assert(f.len() - k == q + 1);
        let p = crate::fft_dispatch::planned_stage(n, f, batch, inverse, k);
        assert(plan[at + k] == p);
        let mid = (states[at + k].complex)(FftBuffer::Work);
        let out = (states[at + k + 1].complex)(FftBuffer::Work);
        assert(pass_done(m, plan[at + k], n as int, states[at + k], states[at + k + 1]));
        let l = crate::fft_plan::product(rest);
        crate::fft_plan::lemma_suffix_product(f, q);
        crate::fft_plan::lemma_suffix_product(f, q + 1);
        assert(1 <= f[q]);
        assert(f[q] <= crate::fft_plan::product(now)) by {
            assert(crate::fft_plan::product(now) == f[q] as nat * l);
            assert(f[q] as nat * l >= f[q]) by (nonlinear_arith)
                requires
                    l >= 1,
            ;
        }
        assert(p.words[1] == l && p.words[2] == f[q]);
        assert(sign_is_inverse(p.words[4]) == inverse);
        assert(crate::fft_stages::stage(
            m,
            mid,
            out,
            crate::fft_plan::product(now.drop_first()) as int,
            now[0] as int,
            inverse,
        ));
        assert(crate::fft_stages::stages(
            m,
            (states[at].complex)(FftBuffer::Work),
            now,
            inverse,
            out,
        ));
    }
}

/// The passes of the FFT compute the FFT: whatever the uploaded values, the work
/// buffer ends with their transform.
pub proof fn law_fft_passes_compute_the_fft<M: SpectrumMath>(
    m: &M,
    n: usize,
    f: Seq<usize>,
    batch: usize,
    inverse: bool,
    states: Seq<SequenceState<M>>,
)
    requires
        crate::fft_plan::all_positive(f),
        n == crate::fft_plan::product(f),
        n <= u32::MAX,
        run_of(m, crate::fft_dispatch::fft_plan(n, f, batch, inverse), n as int, states),
        (states.first().complex)(FftBuffer::Input).len() == n,
    ensures
        crate::fft_stages::transforms(
            m,
            (states.first().complex)(FftBuffer::Input),
            f,
            inverse,
            (states.last().complex)(FftBuffer::Work),
        ),
{
    let plan = crate::fft_dispatch::fft_plan(n, f, batch, inverse);
    let stages = crate::fft_dispatch::planned_stages(n, f, batch, inverse);
    let x = (states[0].complex)(FftBuffer::Input);
    let first = (states[1].complex)(FftBuffer::Work);
    assert(pass_done(m, plan[0], n as int, states[0], states[0int + 1]));
    let p = plan[0];
    assert(p.kernel == FftKernel::Permute && p.from == FftBuffer::Input && p.to == FftBuffer::Work);
    assert(moved_by(p.table, n as int, x, first));
    lemma_digit_reversed(x, f, n, p.table, first);
    assert forall|k: int| 0 <= k < f.len() implies plan[1 + k]
        == #[trigger] crate::fft_dispatch::planned_stage(n, f, batch, inverse, k) by {
        assert(plan[1 + k] == stages[k]);
    }
    lemma_stage_passes(m, plan, n, f, batch, inverse, states, 1, f.len() as int);
    assert(f.skip(0) =~= f);
    assert(plan.len() == 1 + f.len());
}

/// A sequence moved by the digit-reversal table is digit-reversed.
proof fn lemma_digit_reversed<T>(
    x: Seq<T>,
    f: Seq<usize>,
    n: usize,
    table: Seq<u32>,
    first: Seq<T>,
)
    requires
        crate::fft_plan::all_positive(f),
        n == crate::fft_plan::product(f),
        n <= u32::MAX,
        x.len() == n,
        table == crate::fft_dispatch::digit_reverse_words(n as nat, f),
        moved_by(table, n as int, x, first),
    ensures
        crate::fft_stages::digit_reversed(x, f, first),
{
    assert forall|i: int| 0 <= i < x.len() implies first[crate::fft_plan::digit_reverse(
        i as nat,
        f,
    ) as int] == #[trigger] x[i] by {
        crate::fft_plan::lemma_digit_reverse_bound(i as nat, f);
        assert(first[table[i] as int] == x[i]);
    }
}

/// The passes of the DCT-II compute the DCT-II.
pub proof fn law_dct2_passes_compute_the_dct2<M: SpectrumMath>(
    m: &M,
    n: usize,
    f: Seq<usize>,
    batch: usize,
    states: Seq<SequenceState<M>>,
)
    requires
        crate::fft_plan::all_positive(f),
        n == crate::fft_plan::product(f),
        n <= u32::MAX,
        run_of(m, crate::fft_dispatch::dct2_plan(n, f, batch), n as int, states),
        (states.first().reals)(FftBuffer::Input).len() == n,
    ensures
        crate::fft_stages::dct2(
            m,
            (states.first().reals)(FftBuffer::Input),
            f,
            (states.last().reals)(FftBuffer::Output),
        ),
{
    let ni = n as int;
    let plan = crate::fft_dispatch::dct2_plan(n, f, batch);
    let stages = crate::fft_dispatch::planned_stages(n, f, batch, false);
    let x = (states[0].reals)(FftBuffer::Input);
    let first = (states[1].complex)(FftBuffer::Work);
    let end = 1 + f.len() as int;
    assert(plan.len() == end + 1);
    assert(pass_done(m, plan[0], ni, states[0], states[0int + 1]));
    assert forall|k: int| 0 <= k < f.len() implies plan[1 + k]
        == #[trigger] crate::fft_dispatch::planned_stage(n, f, batch, false, k) by {
        assert(plan[1 + k] == stages[k]);
    }
    lemma_stage_passes(m, plan, n, f, batch, false, states, 1, f.len() as int);
    assert(f.skip(0) =~= f);
    let spectrum = (states[end].complex)(FftBuffer::Work);
    assert(pass_done(m, plan[end], ni, states[end], states[end + 1]));
    // The combined table interleaves, then reverses the digits.
    let v = Seq::new(
        n as nat,
        |j: int| first[crate::fft_plan::digit_reverse(j as nat, f) as int],
    );
    assert(crate::fft_stages::digit_reversed(v, f, first));
    assert(crate::fft_stages::interleaved(m, x, v)) by {
        crate::plan_laws::law_interleave_is_a_permutation(ni);
        assert forall|i: int| 0 <= i < x.len() implies call_ensures(
            M::lifted,
            (m, #[trigger] x[i]),
            v[crate::fft_plan::interleave(i, x.len() as int)],
        ) by {
            let at = crate::fft_plan::interleave(i, ni);
            crate::fft_plan::lemma_digit_reverse_bound(at as nat, f);
            assert(plan[0].table[i] == crate::fft_plan::digit_reverse(at as nat, f));
            assert(v[at] == first[plan[0].table[i] as int]);
        }
    }
    assert(crate::fft_stages::transforms(m, v, f, false, spectrum));
}

/// The passes of the DCT-III compute the DCT-III.
pub proof fn law_dct3_passes_compute_the_dct3<M: SpectrumMath>(
    m: &M,
    n: usize,
    f: Seq<usize>,
    batch: usize,
    states: Seq<SequenceState<M>>,
)
    requires
        crate::fft_plan::all_positive(f),
        n == crate::fft_plan::product(f),
        n <= u32::MAX,
        run_of(m, crate::fft_dispatch::dct3_plan(n, f, batch), n as int, states),
        (states.first().reals)(FftBuffer::Input).len() == n,
    ensures
        crate::fft_stages::dct3(
            m,
            (states.first().reals)(FftBuffer::Input),
            f,
            (states.last().reals)(FftBuffer::Output),
        ),
{
    let ni = n as int;
    let plan = crate::fft_dispatch::dct3_plan(n, f, batch);
    let stages = crate::fft_dispatch::planned_stages(n, f, batch, true);
    let bins = (states[0].reals)(FftBuffer::Input);
    let end = 2 + f.len() as int;
    assert(plan.len() == end + 1);
    assert(pass_done(m, plan[0], ni, states[0], states[0int + 1]));
    assert(pass_done(m, plan[1], ni, states[1], states[1int + 1]));
    let v = (states[1].complex)(FftBuffer::Natural);
    let first = (states[2].complex)(FftBuffer::Work);
    let u = choose|u: Seq<M::Real>|
        {
            &&& u.len() == ni
            &&& forall|k: int|
                0 <= k < ni ==> call_ensures(
                    M::unnormalized,
                    (m, bins[k], k as usize, ni as usize),
                    #[trigger] u[k],
                )
            &&& #[trigger] crate::fft_stages::rebuilt(m, u, v)
        };
    let p = plan[1];
    assert(p.kernel == FftKernel::Permute && p.from == FftBuffer::Natural && p.to
        == FftBuffer::Work);
    assert(moved_by(p.table, ni, v, first));
    lemma_digit_reversed(v, f, n, p.table, first);
    assert forall|k: int| 0 <= k < f.len() implies plan[2 + k]
        == #[trigger] crate::fft_dispatch::planned_stage(n, f, batch, true, k) by {
        assert(plan[2 + k] == stages[k]);
    }
    lemma_stage_passes(m, plan, n, f, batch, true, states, 2, f.len() as int);
    assert(f.skip(0) =~= f);
    let y = (states[end].complex)(FftBuffer::Work);
    assert(crate::fft_stages::transforms(m, v, f, true, y));
    assert(pass_done(m, plan[end], ni, states[end], states[end + 1]));
    let out = (states[end + 1].reals)(FftBuffer::Output);
    crate::plan_laws::law_interleave_is_a_permutation(ni);
    assert forall|i: int| 0 <= i < ni implies call_ensures(
        M::sample,
        (m, y[crate::fft_plan::interleave(i, ni)], ni as usize),
        #[trigger] out[i],
    ) by {
        let at = crate::fft_plan::interleave(i, ni);
        assert(plan[end].table[i] == at);
    }
}

/// On the device too the DCT-III undoes the DCT-II: in exact arithmetic, the bins
/// that the passes of the one leave, uploaded for the passes of the other, come
/// back as the samples they were.
pub proof fn law_dct3_passes_undo_dct2_passes<M: SpectrumMath>(
    m: &M,
    co: spec_fn(M::Complex, int) -> real,
    cr: spec_fn(M::Real, int) -> real,
    n: usize,
    f: Seq<usize>,
    batch: usize,
    there: Seq<SequenceState<M>>,
    back: Seq<SequenceState<M>>,
    i: int,
    e: int,
)
    requires
        crate::fft_laws::exact(m, co, 4 * n),
        crate::fft_laws::cycles_vanish(co, 4 * n, n as nat),
        crate::dct_laws::exact_forward(m, co, cr, n as int),
        crate::dct_laws::exact_backward(m, co, cr, n as int),
        crate::dct_laws::scale_undone(m, cr, n as int),
        crate::fft_plan::all_positive(f),
        n == crate::fft_plan::product(f),
        n % 2 == 0,
        n <= u32::MAX,
        run_of(m, crate::fft_dispatch::dct2_plan(n, f, batch), n as int, there),
        run_of(m, crate::fft_dispatch::dct3_plan(n, f, batch), n as int, back),
        (there.first().reals)(FftBuffer::Input).len() == n,
        (back.first().reals)(FftBuffer::Input) == (there.last().reals)(FftBuffer::Output),
        0 <= i < n,
    ensures
        (back.last().reals)(FftBuffer::Output).len() == n,
        cr((back.last().reals)(FftBuffer::Output)[i], e) == cr(
            (there.first().reals)(FftBuffer::Input)[i],
            e,
        ),
{
    let x = (there.first().reals)(FftBuffer::Input);
    let bins = (there.last().reals)(FftBuffer::Output);
    let out = (back.last().reals)(FftBuffer::Output);
    law_dct2_passes_compute_the_dct2(m, n, f, batch, there);
    law_dct3_passes_compute_the_dct3(m, n, f, batch, back);
    crate::dct_laws::law_dct3_undoes_dct2(m, co, cr, x, f, bins, out, i, e);
}

} // verus!
