//! What every pass of a transform by FFT tells its shader: the length, the batch,
//! and for a stage its stride and radix.
use crate::fft_dispatch::{FftBuffer, FftKernel};
use vstd::prelude::*;

verus! {

/// A pass that goes over every element of the batch: its block says how long a
/// sequence is and how many there are, and its workgroups of 256 are just enough.
pub open spec fn goes_over_all(
    p: crate::fft_dispatch::FftPass,
    kernel: FftKernel,
    from: FftBuffer,
    to: FftBuffer,
    n: int,
    batch: int,
) -> bool {
    &&& p.kernel == kernel
    &&& p.from == from
    &&& p.to == to
    &&& exists|least_first: bool|
        #[trigger] crate::gpu_laws::read_word(p.dispatch.params@, 0, least_first) == n
            && crate::gpu_laws::read_word(p.dispatch.params@, 1, least_first) == batch
    &&& p.dispatch.workgroups * 256 >= n * batch
    &&& (p.dispatch.workgroups - 1) * 256 < n * batch
}

/// A stage in place: its block says how long a sequence is, with which stride and
/// radix its elements go together, how many sequences there are, and the sign,
/// which is the number 1 going back and, but for the sign bit, the same going
/// forth; its workgroups of 256 butterflies are just enough.
pub open spec fn is_stage(
    p: crate::fft_dispatch::FftPass,
    n: int,
    l: int,
    r: int,
    batch: int,
    inverse: bool,
) -> bool {
    &&& p.kernel == FftKernel::Stage
    &&& p.from == FftBuffer::Work
    &&& p.to == FftBuffer::Work
    &&& exists|least_first: bool|
        {
            &&& #[trigger] crate::gpu_laws::read_word(p.dispatch.params@, 0, least_first) == n
            &&& crate::gpu_laws::read_word(p.dispatch.params@, 1, least_first) == l
            &&& crate::gpu_laws::read_word(p.dispatch.params@, 2, least_first) == r
            &&& crate::gpu_laws::read_word(p.dispatch.params@, 3, least_first) == batch
            &&& crate::gpu_laws::read_word(p.dispatch.params@, 4, least_first) == (if inverse {
                0x3F80_0000int
            } else {
                0xBF80_0000int
            })
        }
    &&& (p.dispatch.workgroups * 256) * r >= n * batch
    &&& ((p.dispatch.workgroups - 1) * 256) * r < n * batch
}

/// The passes from `at` on are the stages: as many as there are factors, the last
/// factor first, the stride 1 at first and then grown by each radix.
pub open spec fn has_stages(
    passes: Seq<crate::fft_dispatch::FftPass>,
    at: int,
    n: int,
    f: Seq<usize>,
    batch: int,
    inverse: bool,
) -> bool {
    exists|strides: Seq<int>|
        {
            &&& strides.len() == f.len() + 1
            &&& strides[0] == 1
            &&& strides.last() == n
            &&& forall|s: int|
                #![trigger strides[s]]
                0 <= s < f.len() ==> {
                    let r = f[f.len() - 1 - s] as int;
                    &&& strides[s + 1] == strides[s] * r
                    &&& is_stage(passes[at + s], n, strides[s], r, batch, inverse)
                }
        }
}

/// A planned pass over all elements goes over all elements.
proof fn lemma_move(
    p: crate::fft_dispatch::FftPass,
    kernel: FftKernel,
    table: Seq<u32>,
    from: FftBuffer,
    to: FftBuffer,
    n: usize,
    batch: usize,
)
    requires
        0 < n * batch <= u32::MAX,
        p.carries_out(crate::fft_dispatch::planned_move(kernel, table, from, to, n, batch)),
    ensures
        goes_over_all(p, kernel, from, to, n as int, batch as int),
        p.table@ == table,
{
    let d = p.dispatch;
    crate::gpu_laws::lemma_small(n as int, batch as int);
    let words = crate::fft_dispatch::perm_words(n, batch);
    crate::gpu_laws::lemma_reads_back(d.params@, words);
    let least_first = choose|least_first: bool|
        #[trigger] crate::gpu_laws::reads_as(d.params@, least_first, words);
    assert(crate::gpu_laws::read_word(d.params@, 0, least_first) == words[0]);
    assert(crate::gpu_laws::read_word(d.params@, 1, least_first) == words[1]);
    crate::gpu::law_groups_cover(n * batch, 256);
}

/// Planned stages are stages.
proof fn lemma_stages(
    passes: Seq<crate::fft_dispatch::FftPass>,
    at: int,
    n: usize,
    f: Seq<usize>,
    batch: usize,
    inverse: bool,
)
    requires
        crate::fft_plan::all_positive(f),
        n == crate::fft_plan::product(f),
        0 < n * batch <= u32::MAX,
        forall|s: int|
            0 <= s < f.len() ==> passes[at + s].carries_out(
                #[trigger] crate::fft_dispatch::planned_stage(n, f, batch, inverse, s),
            ),
    ensures
        has_stages(passes, at, n as int, f, batch as int, inverse),
{
    let strides = Seq::new(
        f.len() + 1,
        |s: int| crate::fft_dispatch::stage_stride(f, s) as int,
    );
    assert(f.skip(f.len() as int) =~= Seq::<usize>::empty());
    assert(f.skip(0) =~= f);
    crate::gpu_laws::lemma_small(n as int, batch as int);
    assert forall|s: int|
        #![trigger strides[s]]
        0 <= s < f.len() implies {
        let r = f[f.len() - 1 - s] as int;
        &&& strides[s + 1] == strides[s] * r
        &&& is_stage(passes[at + s], n as int, strides[s], r, batch as int, inverse)
    } by {
        let q = f.len() - s;
        let now = f.skip(q - 1);
        assert(now.drop_first() =~= f.skip(q));
        assert(now[0] == f[q - 1]);
        assert(1 <= f[q - 1]);
        let (l, r) = (strides[s], f[q - 1] as int);
        assert(strides[s + 1] == r * l);
        assert(r * l == l * r) by (nonlinear_arith);
        crate::fft_plan::lemma_suffix_product(f, q);
        crate::fft_plan::lemma_suffix_product(f, q - 1);
        let p = passes[at + s];
        let d = p.dispatch;
        let plan = crate::fft_dispatch::planned_stage(n, f, batch, inverse, s);
        assert(p.carries_out(plan));
        crate::fft_dispatch::law_stage_work_covers_the_batch(f, s, batch as int);
        let work = crate::fft_dispatch::stage_work(n as int, l, r, batch as int);
        assert(work * r == n * batch);
        assert(0 < work <= n * batch) by (nonlinear_arith)
            requires
                work * r == n * batch,
                n * batch > 0,
                r >= 1,
        ;
        assert(1 <= l && l * r <= n) by {
            assert(crate::fft_plan::product(f.skip(q - 1)) == l * r);
        }
        assert(l <= n && r <= n) by (nonlinear_arith)
            requires
                l * r <= n,
                1 <= l,
                1 <= r,
        ;
        let words = crate::fft_dispatch::stage_words(n, l as usize, r as usize, batch, inverse);
        assert(plan.words == words);
        crate::gpu_laws::lemma_reads_back(d.params@, words);
        let least_first = choose|least_first: bool|
            #[trigger] crate::gpu_laws::reads_as(d.params@, least_first, words);
        assert(crate::gpu_laws::read_word(d.params@, 0, least_first) == words[0]);
        assert(crate::gpu_laws::read_word(d.params@, 1, least_first) == words[1]);
        assert(crate::gpu_laws::read_word(d.params@, 2, least_first) == words[2]);
        assert(crate::gpu_laws::read_word(d.params@, 3, least_first) == words[3]);
        assert(crate::gpu_laws::read_word(d.params@, 4, least_first) == words[4]);
        crate::gpu::law_groups_cover(work, 256);
        let g = d.workgroups as int;
        assert((g * 256) * r >= n * batch && ((g - 1) * 256) * r < n * batch) by (nonlinear_arith)
            requires
                g * 256 >= work,
                (g - 1) * 256 < work,
                work * r == n * batch,
                r >= 1,
        ;
    }
    assert(strides[0] == 1);
    assert(strides.last() == n);
}

/// A complex FFT moves its input to the work buffer, each sequence of the batch in
/// the order of reversed digits, and runs its stages there.
pub proof fn law_fft_passes_tell_their_batch(
    n: usize,
    factors: &[usize],
    batch: usize,
    inverse: bool,
    passes: Vec<crate::fft_dispatch::FftPass>,
)
    requires
        crate::fft_plan::all_positive(factors@),
        n == crate::fft_plan::product(factors@),
        0 < n * batch <= u32::MAX,
        call_ensures(crate::fft_dispatch::fft_passes, (n, factors, batch, inverse), passes),
    ensures
        passes@.len() == factors@.len() + 1,
        goes_over_all(
            passes@[0],
            FftKernel::Permute,
            FftBuffer::Input,
            FftBuffer::Work,
            n as int,
            batch as int,
        ),
        has_stages(passes@, 1, n as int, factors@, batch as int, inverse),
{
    let f = factors@;
    let plan = crate::fft_dispatch::fft_plan(n, f, batch, inverse);
    let stages = crate::fft_dispatch::planned_stages(n, f, batch, inverse);
    assert(crate::fft_dispatch::carry_out(passes@, plan));
    assert(passes@[0].carries_out(plan[0]));
    lemma_move(
        passes@[0],
        FftKernel::Permute,
        plan[0].table,
        FftBuffer::Input,
        FftBuffer::Work,
        n,
        batch,
    );
    assert forall|s: int| 0 <= s < f.len() implies passes@[1 + s].carries_out(
        #[trigger] crate::fft_dispatch::planned_stage(n, f, batch, inverse, s),
    ) by {
        assert(plan[1 + s] == stages[s]);
    }
    lemma_stages(passes@, 1, n, f, batch, inverse);
}

/// A DCT-II moves its samples to the work buffer, runs the stages forth there, and
/// makes its bins of what they leave.
pub proof fn law_dct2_passes_tell_their_batch(
    n: usize,
    factors: &[usize],
    batch: usize,
    passes: Vec<crate::fft_dispatch::FftPass>,
)
    requires
        crate::fft_plan::all_positive(factors@),
        n == crate::fft_plan::product(factors@),
        0 < n * batch <= u32::MAX,
        call_ensures(crate::fft_dispatch::dct2_passes, (n, factors, batch), passes),
    ensures
        passes@.len() == factors@.len() + 2,
        goes_over_all(
            passes@[0],
            FftKernel::ForwardPermute,
            FftBuffer::Input,
            FftBuffer::Work,
            n as int,
            batch as int,
        ),
        has_stages(passes@, 1, n as int, factors@, batch as int, false),
        goes_over_all(
            passes@.last(),
            FftKernel::Dct2Post,
            FftBuffer::Work,
            FftBuffer::Output,
            n as int,
            batch as int,
        ),
{
    let f = factors@;
    let plan = crate::fft_dispatch::dct2_plan(n, f, batch);
    let stages = crate::fft_dispatch::planned_stages(n, f, batch, false);
    assert(crate::fft_dispatch::carry_out(passes@, plan));
    let end = 1 + f.len() as int;
    assert(plan.len() == end + 1);
    assert(passes@[0].carries_out(plan[0]));
    assert(passes@[end].carries_out(plan[end]));
    lemma_move(
        passes@[0],
        FftKernel::ForwardPermute,
        plan[0].table,
        FftBuffer::Input,
        FftBuffer::Work,
        n,
        batch,
    );
    lemma_move(
        passes@[end],
        FftKernel::Dct2Post,
        plan[end].table,
        FftBuffer::Work,
        FftBuffer::Output,
        n,
        batch,
    );
    assert forall|s: int| 0 <= s < f.len() implies passes@[1 + s].carries_out(
        #[trigger] crate::fft_dispatch::planned_stage(n, f, batch, false, s),
    ) by {
        assert(plan[1 + s] == stages[s]);
    }
    lemma_stages(passes@, 1, n, f, batch, false);
}

/// A DCT-III makes a spectrum of its bins, moves it to the work buffer, runs the
/// stages back there, and gathers its samples from what they leave.
pub proof fn law_dct3_passes_tell_their_batch(
    n: usize,
    factors: &[usize],
    batch: usize,
    passes: Vec<crate::fft_dispatch::FftPass>,
)
    requires
        crate::fft_plan::all_positive(factors@),
        n == crate::fft_plan::product(factors@),
        0 < n * batch <= u32::MAX,
        call_ensures(crate::fft_dispatch::dct3_passes, (n, factors, batch), passes),
    ensures
        passes@.len() == factors@.len() + 3,
        goes_over_all(
            passes@[0],
            FftKernel::Dct3Pre,
            FftBuffer::Input,
            FftBuffer::Natural,
            n as int,
            batch as int,
        ),
        goes_over_all(
            passes@[1],
            FftKernel::Permute,
            FftBuffer::Natural,
            FftBuffer::Work,
            n as int,
            batch as int,
        ),
        has_stages(passes@, 2, n as int, factors@, batch as int, true),
        goes_over_all(
            passes@.last(),
            FftKernel::Dct3Post,
            FftBuffer::Work,
            FftBuffer::Output,
            n as int,
            batch as int,
        ),
{
    let f = factors@;
    let plan = crate::fft_dispatch::dct3_plan(n, f, batch);
    let stages = crate::fft_dispatch::planned_stages(n, f, batch, true);
    assert(crate::fft_dispatch::carry_out(passes@, plan));
    let end = 2 + f.len() as int;
    assert(plan.len() == end + 1);
    assert(passes@[0].carries_out(plan[0]));
    assert(passes@[1].carries_out(plan[1]));
    assert(passes@[end].carries_out(plan[end]));
    lemma_move(
        passes@[0],
        FftKernel::Dct3Pre,
        plan[0].table,
        FftBuffer::Input,
        FftBuffer::Natural,
        n,
        batch,
    );
    lemma_move(
        passes@[1],
        FftKernel::Permute,
        plan[1].table,
        FftBuffer::Natural,
        FftBuffer::Work,
        n,
        batch,
    );
    lemma_move(
        passes@[end],
        FftKernel::Dct3Post,
        plan[end].table,
        FftBuffer::Work,
        FftBuffer::Output,
        n,
        batch,
    );
    assert forall|s: int| 0 <= s < f.len() implies passes@[2 + s].carries_out(
        #[trigger] crate::fft_dispatch::planned_stage(n, f, batch, true, s),
    ) by {
        assert(plan[2 + s] == stages[s]);
    }
    lemma_stages(passes@, 2, n, f, batch, true);
}

/// The kernels are the shader's own: no two share an entry point.
pub proof fn law_kernels_have_entry_points_of_their_own(
    a: FftKernel,
    b: FftKernel,
    x: &'static str,
    y: &'static str,
)
    requires
        call_ensures(FftKernel::entry_point, (a,), x),
        call_ensures(FftKernel::entry_point, (b,), y),
    ensures
        x@ == y@ <==> a == b,
        a is Stage <==> x@ == "fft_stage"@,
        a is Permute <==> x@ == "digit_reverse_permute"@,
        a is ForwardPermute <==> x@ == "dct_forward_permute"@,
        a is Dct2Post <==> x@ == "dct2_post_twiddle"@,
        a is Dct3Pre <==> x@ == "dct3_pre_twiddle"@,
        a is Dct3Post <==> x@ == "dct3_post_gather"@,
{
    reveal_strlit("digit_reverse_permute");
    reveal_strlit("fft_stage");
    reveal_strlit("dct_forward_permute");
    reveal_strlit("dct2_post_twiddle");
    reveal_strlit("dct3_pre_twiddle");
    reveal_strlit("dct3_post_gather");
    assert("digit_reverse_permute"@.len() == 21 && "fft_stage"@.len() == 9
        && "dct_forward_permute"@.len() == 19 && "dct2_post_twiddle"@.len() == 17
        && "dct3_pre_twiddle"@.len() == 16 && "dct3_post_gather"@.len() == 16);
    assert("dct3_pre_twiddle"@[6] == 'r' && "dct3_post_gather"@[6] == 'o');
}

} // verus!
