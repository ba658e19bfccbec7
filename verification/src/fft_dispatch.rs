//! The GPU dispatches of the mixed-radix FFT: permutation tables, parameter
//! blocks and workgroup counts, for a batch of sequences at once.
use crate::fft_plan::{dct_interleave_index, digit_reverse_index};
use crate::gpu::{groups_of, word_bytes};
use vstd::prelude::*;

verus! {

/// Items to a workgroup of the FFT shader.
pub const WORKGROUP: u32 = 256;

/// The digit-reversal table of `n` elements.
pub open spec fn digit_reverse_words(n: nat, f: Seq<usize>) -> Seq<u32> {
    Seq::new(n, |i: int| crate::fft_plan::digit_reverse(i as nat, f) as u32)
}

/// The table that applies the even/odd interleave and then the digit reversal.
pub open spec fn combined_words(n: nat, f: Seq<usize>) -> Seq<u32> {
    Seq::new(
        n,
        |i: int|
            crate::fft_plan::digit_reverse(
                crate::fft_plan::interleave(i, n as int) as nat,
                f,
            ) as u32,
    )
}

/// The table that takes the even/odd interleave back.
pub open spec fn interleave_words(n: nat) -> Seq<u32> {
    Seq::new(n, |i: int| crate::fft_plan::interleave(i, n as int) as u32)
}

/// The plain digit-reversal table, which goes before the inverse stages.
pub fn digit_reverse_table(n: usize, factors: &[usize]) -> (table: Vec<u32>)
    requires
        crate::fft_plan::all_positive(factors@),
        crate::fft_plan::product(factors@) <= usize::MAX,
    ensures
        table@ == digit_reverse_words(n as nat, factors@),
{
    let mut table: Vec<u32> = Vec::with_capacity(n);
    let mut i: usize = 0;
    while i < n
        invariant
            i <= n,
            crate::fft_plan::all_positive(factors@),
            crate::fft_plan::product(factors@) <= usize::MAX,
            table@.len() == i,
            forall|t: int|
                0 <= t < i ==> #[trigger] table@[t] == digit_reverse_words(n as nat, factors@)[t],
        decreases n - i,
    {
        let to: usize = digit_reverse_index(i, factors);
        table.push(to as u32);
        i = i + 1;
    }
    assert(table@ =~= digit_reverse_words(n as nat, factors@));
    table
}

/// The combined table, which goes before the forward stages of a DCT-II.
pub fn combined_table(n: usize, factors: &[usize]) -> (table: Vec<u32>)
    requires
        crate::fft_plan::all_positive(factors@),
        crate::fft_plan::product(factors@) <= usize::MAX,
    ensures
        table@ == combined_words(n as nat, factors@),
{
    let mut table: Vec<u32> = Vec::with_capacity(n);
    let mut i: usize = 0;
    while i < n
        invariant
            i <= n,
            crate::fft_plan::all_positive(factors@),
            crate::fft_plan::product(factors@) <= usize::MAX,
            table@.len() == i,
            forall|t: int|
                0 <= t < i ==> #[trigger] table@[t] == combined_words(n as nat, factors@)[t],
        decreases n - i,
    {
        let at: usize = dct_interleave_index(i, n);
        let to: usize = digit_reverse_index(at, factors);
        table.push(to as u32);
        i = i + 1;
    }
    assert(table@ =~= combined_words(n as nat, factors@));
    table
}

/// The gather table, which goes behind the inverse stages of a DCT-III.
pub fn interleave_table(n: usize) -> (table: Vec<u32>)
    ensures
        table@ == interleave_words(n as nat),
{
    let mut table: Vec<u32> = Vec::with_capacity(n);
    let mut i: usize = 0;
    while i < n
        invariant
            i <= n,
            table@.len() == i,
            forall|t: int| 0 <= t < i ==> #[trigger] table@[t] == interleave_words(n as nat)[t],
        decreases n - i,
    {
        let at: usize = dct_interleave_index(i, n);
        table.push(at as u32);
        i = i + 1;
    }
    assert(table@ =~= interleave_words(n as nat));
    table
}

/// A table entry for every index, each below the length and none twice: the
/// forward table of a DCT-II moves every sample to a place of its own.
pub proof fn law_combined_table_is_a_permutation(n: nat, f: Seq<usize>)
    requires
        crate::fft_plan::all_positive(f),
        n == crate::fft_plan::product(f),
        n <= u32::MAX,
    ensures
        forall|i: int| 0 <= i < n ==> #[trigger] combined_words(n, f)[i] < n,
        forall|i: int, j: int|
            0 <= i < n && 0 <= j < n && i != j ==> #[trigger] combined_words(n, f)[i]
                != #[trigger] combined_words(n, f)[j],
{
    crate::plan_laws::law_interleave_is_a_permutation(n as int);
    crate::plan_laws::law_digit_reverse_is_a_permutation(f);
    assert forall|i: int| 0 <= i < n implies #[trigger] combined_words(n, f)[i] < n by {
        let at = crate::fft_plan::interleave(i, n as int);
        assert(crate::fft_plan::digit_reverse(at as nat, f) < n);
    }
    assert forall|i: int, j: int| 0 <= i < n && 0 <= j < n && i != j implies #[trigger] combined_words(
        n,
        f,
    )[i] != #[trigger] combined_words(n, f)[j] by {
        let (p, q) = (
            crate::fft_plan::interleave(i, n as int),
            crate::fft_plan::interleave(j, n as int),
        );
        assert(crate::fft_plan::digit_reverse(p as nat, f) < n);
        assert(crate::fft_plan::digit_reverse(q as nat, f) < n);
        assert(crate::fft_plan::digit_reverse(p as nat, f) != crate::fft_plan::digit_reverse(
            q as nat,
            f,
        ));
    }
}

/// The parameter block of one FFT stage, as words: length, stride, radix, batch,
/// the bit pattern of the turning direction's sign, and padding.
pub open spec fn stage_words(n: usize, l: usize, radix: usize, batch: usize, inverse: bool) -> Seq<
    u32,
> {
    seq![
        n as u32,
        l as u32,
        radix as u32,
        batch as u32,
        if inverse {
            0x3F80_0000u32
        } else {
            0xBF80_0000u32
        },
        0,
        0,
        0,
    ]
}

/// The parameter block of a permutation or twiddle pass, as words.
pub open spec fn perm_words(n: usize, batch: usize) -> Seq<u32> {
    seq![n as u32, batch as u32, 0, 0]
}

/// One dispatch: its parameter block and how many workgroups it takes.
pub struct Dispatch {
    pub params: Vec<u8>,
    pub workgroups: u32,
}

impl Dispatch {
    /// The dispatch carries these words, in memory order, for so many items.
    pub open spec fn carries(self, words: Seq<u32>, items: u32) -> bool {
        &&& self.params@ == crate::gpu::little_endian(words) || self.params@
            == crate::gpu::big_endian(words)
        &&& self.workgroups == crate::gpu::ceil_div(items as int, WORKGROUP as int)
    }
}

/// The dispatch of a permutation or twiddle pass over a batch of sequences.
pub fn permute_dispatch(n: usize, batch: usize) -> (d: Dispatch)
    requires
        n * batch <= usize::MAX,
    ensures
        d.carries(perm_words(n, batch), (n * batch) as u32),
{
    let words: [u32; 4] = [n as u32, batch as u32, 0, 0];
    assert(words@ =~= perm_words(n, batch));
    let params = word_bytes(words.as_slice());
    let items: usize = n * batch;
    Dispatch { params, workgroups: groups_of(items as u32, WORKGROUP) }
}

/// How many butterflies of radix `r` and stride `l` a batch has.
pub open spec fn stage_work(n: int, l: int, r: int, batch: int) -> int {
    n / (l * r) * l * batch
}

/// The stride of stage `s`: the product of the factors of the stages before it,
/// which are those behind it in the list.
pub open spec fn stage_stride(f: Seq<usize>, s: int) -> nat {
    crate::fft_plan::product(f.skip(f.len() - s))
}

/// The work of a stage never exceeds the number of elements.
proof fn lemma_stage_work(n: int, l: int, r: int, batch: int)
    requires
        n >= 0,
        l > 0,
        r > 0,
        batch >= 0,
    ensures
        0 <= n / (l * r) * l <= n,
        0 <= stage_work(n, l, r, batch) <= n * batch,
{
    let w = l * r;
    let g = n / w;
    assert(w >= l && w > 0) by (nonlinear_arith)
        requires
            w == l * r,
            l > 0,
            r > 0,
    ;
    vstd::arithmetic::div_mod::lemma_fundamental_div_mod(n, w);
    assert(0 <= g) by {
        vstd::arithmetic::div_mod::lemma_div_pos_is_pos(n, w);
    }
    assert(0 <= g * l <= n) by (nonlinear_arith)
        requires
            n == w * g + n % w,
            0 <= n % w,
            0 <= g,
            l <= w,
            l > 0,
    ;
    let x = g * l;
    assert(0 <= x * batch <= n * batch) by (nonlinear_arith)
        requires
            0 <= x <= n,
            batch >= 0,
    ;
}

/// The dispatch of one stage of the FFT of a batch of `batch` sequences of
/// length `n`: radix `r`, stride `l`.
pub fn stage_dispatch(n: usize, l: usize, r: usize, batch: usize, inverse: bool) -> (d: Dispatch)
    requires
        1 <= l,
        1 <= r,
        l * r <= usize::MAX,
        n * batch <= usize::MAX,
    ensures
        d.carries(
            stage_words(n, l, r, batch, inverse),
            stage_work(n as int, l as int, r as int, batch as int) as u32,
        ),
{
    let sign: u32 = if inverse {
        0x3F80_0000
    } else {
        0xBF80_0000
    };
    proof {
        assert(l * r >= 1) by (nonlinear_arith)
            requires
                l >= 1,
                r >= 1,
        ;
        lemma_stage_work(n as int, l as int, r as int, batch as int);
    }
    let groups: usize = n / (l * r);
    let work: usize = groups * l;
    let total: usize = work * batch;
    let words: [u32; 8] = [n as u32, l as u32, r as u32, batch as u32, sign, 0, 0, 0];
    assert(words@ =~= stage_words(n, l, r, batch, inverse));
    let params = word_bytes(words.as_slice());
    Dispatch { params, workgroups: groups_of(total as u32, WORKGROUP) }
}

/// The butterflies of a stage, with as many elements each as its radix, take in
/// every element of the batch once.
pub proof fn law_stage_work_covers_the_batch(f: Seq<usize>, s: int, batch: int)
    requires
        crate::fft_plan::all_positive(f),
        0 <= s < f.len(),
        0 <= batch,
    ensures
        ({
            let n = crate::fft_plan::product(f) as int;
            let (l, r) = (stage_stride(f, s) as int, f[f.len() - 1 - s] as int);
            stage_work(n, l, r, batch) * r == n * batch
        }),
    decreases f.len(),
{
    let n = crate::fft_plan::product(f) as int;
    let q = f.len() - s;
    let l = stage_stride(f, s) as int;
    let r = f[q - 1] as int;
    let now = f.skip(q - 1);
    assert(now.drop_first() =~= f.skip(q));
    assert(now[0] == f[q - 1]);
    assert(1 <= f[q - 1]);
    crate::fft_plan::lemma_suffix_product(f, q);
    let w = crate::fft_plan::product(now) as int;
    assert(w == r * l);
    lemma_suffix_divides(f, q - 1);
    let g = n / w;
    vstd::arithmetic::div_mod::lemma_fundamental_div_mod(n, w);
    assert(l * r == w) by (nonlinear_arith)
        requires
            w == r * l,
    ;
    assert(g * l * batch * r == n * batch) by (nonlinear_arith)
        requires
            n == w * g,
            w == r * l,
    ;
}

/// The product of a tail of the factors divides that of all of them.
proof fn lemma_suffix_divides(f: Seq<usize>, q: int)
    requires
        crate::fft_plan::all_positive(f),
        0 <= q <= f.len(),
    ensures
        crate::fft_plan::product(f.skip(q)) >= 1,
        crate::fft_plan::product(f) as int % crate::fft_plan::product(f.skip(q)) as int == 0,
    decreases q,
{
    crate::fft_plan::lemma_suffix_product(f, q);
    let w = crate::fft_plan::product(f.skip(q)) as int;
    if q == 0 {
        assert(f.skip(0) =~= f);
        crate::arith::lemma_div_mod_of(w, w, 1, 0);
    } else {
        crate::fft_plan::lemma_tail_positive(f);
        let rest = f.drop_first();
        assert(f.skip(q) =~= rest.skip(q - 1));
        lemma_suffix_divides(rest, q - 1);
        crate::arith::lemma_multiple_of_multiple(
            f[0] as int,
            crate::fft_plan::product(rest) as int,
            w,
        );
    }
}

/// A kernel of the FFT shader.
#[derive(Debug, Clone, Copy, PartialEq, Eq, Structural)]
pub enum FftKernel {
    /// Moves every complex element to the place its table names.
    Permute,
    /// One butterfly stage, in place.
    Stage,
    /// Moves every real sample to the place its table names, as a complex value.
    ForwardPermute,
    /// A DCT-II bin from every value of a spectrum.
    Dct2Post,
    /// The spectrum that DCT-II bins stand for.
    Dct3Pre,
    /// A real sample from the value that its table names.
    Dct3Post,
}

impl FftKernel {
    /// The name of the kernel's entry point.
    pub open spec fn name(self) -> Seq<char> {
        match self {
            FftKernel::Permute => "digit_reverse_permute"@,
            FftKernel::Stage => "fft_stage"@,
            FftKernel::ForwardPermute => "dct_forward_permute"@,
            FftKernel::Dct2Post => "dct2_post_twiddle"@,
            FftKernel::Dct3Pre => "dct3_pre_twiddle"@,
            FftKernel::Dct3Post => "dct3_post_gather"@,
        }
    }

    /// The name of the kernel's entry point.
    pub fn entry_point(self) -> (r: &'static str)
        ensures
            r@ == self.name(),
    {
        match self {
            FftKernel::Permute => "digit_reverse_permute",
            FftKernel::Stage => "fft_stage",
            FftKernel::ForwardPermute => "dct_forward_permute",
            FftKernel::Dct2Post => "dct2_post_twiddle",
            FftKernel::Dct3Pre => "dct3_pre_twiddle",
            FftKernel::Dct3Post => "dct3_post_gather",
        }
    }
}

/// A buffer of one batch.
#[derive(Debug, Clone, Copy, PartialEq, Eq, Structural)]
pub enum FftBuffer {
    /// What was uploaded.
    Input,
    /// Complex values in natural order.
    Natural,
    /// Complex values that the stages work on.
    Work,
    /// What is read back.
    Output,
}

/// One pass over a batch: its kernel, its table if it has one, the buffers it
/// goes from and to, and its dispatch.
pub struct FftPass {
    pub kernel: FftKernel,
    pub table: Vec<u32>,
    pub from: FftBuffer,
    pub to: FftBuffer,
    pub dispatch: Dispatch,
}

/// What a pass is to be.
pub ghost struct PlannedPass {
    pub kernel: FftKernel,
    pub table: Seq<u32>,
    pub from: FftBuffer,
    pub to: FftBuffer,
    pub words: Seq<u32>,
    pub items: u32,
}

impl FftPass {
    /// The pass is as planned.
    pub open spec fn carries_out(self, p: PlannedPass) -> bool {
        &&& self.kernel == p.kernel
        &&& self.table@ == p.table
        &&& self.from == p.from
        &&& self.to == p.to
        &&& self.dispatch.carries(p.words, p.items)
    }

    /// The table as it is uploaded: its words in memory order.
    pub fn table_bytes(&self) -> (bytes: Vec<u8>)
        ensures
            bytes@ == crate::gpu::little_endian(self.table@) || bytes@ == crate::gpu::big_endian(
                self.table@,
            ),
    {
        word_bytes(self.table.as_slice())
    }
}

/// The passes are as planned, in order.
pub open spec fn carry_out(passes: Seq<FftPass>, plan: Seq<PlannedPass>) -> bool {
    &&& passes.len() == plan.len()
    &&& forall|i: int| 0 <= i < plan.len() ==> (#[trigger] passes[i]).carries_out(plan[i])
}

/// A pass over all elements of the batch.
pub open spec fn planned_move(
    kernel: FftKernel,
    table: Seq<u32>,
    from: FftBuffer,
    to: FftBuffer,
    n: usize,
    batch: usize,
) -> PlannedPass {
    PlannedPass {
        kernel,
        table,
        from,
        to,
        words: perm_words(n, batch),
        items: (n * batch) as u32,
    }
}

/// Stage `s` of the batch, in place.
pub open spec fn planned_stage(
    n: usize,
    f: Seq<usize>,
    batch: usize,
    inverse: bool,
    s: int,
) -> PlannedPass {
    let l = stage_stride(f, s);
    let r = f[f.len() - 1 - s];
    PlannedPass {
        kernel: FftKernel::Stage,
        table: seq![],
        from: FftBuffer::Work,
        to: FftBuffer::Work,
        words: stage_words(n, l as usize, r, batch, inverse),
        items: stage_work(n as int, l as int, r as int, batch as int) as u32,
    }
}

/// All stages of the batch.
pub open spec fn planned_stages(n: usize, f: Seq<usize>, batch: usize, inverse: bool) -> Seq<
    PlannedPass,
> {
    Seq::new(f.len(), |s: int| planned_stage(n, f, batch, inverse, s))
}

/// The passes of a complex FFT: the permutation, then the stages. The result is
/// left in the work buffer.
pub open spec fn fft_plan(n: usize, f: Seq<usize>, batch: usize, inverse: bool) -> Seq<
    PlannedPass,
> {
    seq![
        planned_move(
            FftKernel::Permute,
            digit_reverse_words(n as nat, f),
            FftBuffer::Input,
            FftBuffer::Work,
            n,
            batch,
        ),
    ] + planned_stages(n, f, batch, inverse)
}

/// The passes of a DCT-II: the combined permutation, the stages, the bins.
pub open spec fn dct2_plan(n: usize, f: Seq<usize>, batch: usize) -> Seq<PlannedPass> {
    seq![
        planned_move(
            FftKernel::ForwardPermute,
            combined_words(n as nat, f),
            FftBuffer::Input,
            FftBuffer::Work,
            n,
            batch,
        ),
    ] + planned_stages(n, f, batch, false) + seq![
        planned_move(
            FftKernel::Dct2Post,
            seq![],
            FftBuffer::Work,
            FftBuffer::Output,
            n,
            batch,
        ),
    ]
}

/// The passes of a DCT-III: the spectrum, the plain permutation, the inverse
/// stages, the samples.
pub open spec fn dct3_plan(n: usize, f: Seq<usize>, batch: usize) -> Seq<PlannedPass> {
    seq![
        planned_move(
            FftKernel::Dct3Pre,
            seq![],
            FftBuffer::Input,
            FftBuffer::Natural,
            n,
            batch,
        ),
        planned_move(
            FftKernel::Permute,
            digit_reverse_words(n as nat, f),
            FftBuffer::Natural,
            FftBuffer::Work,
            n,
            batch,
        ),
    ] + planned_stages(n, f, batch, true) + seq![
        planned_move(
            FftKernel::Dct3Post,
            interleave_words(n as nat),
            FftBuffer::Work,
            FftBuffer::Output,
            n,
            batch,
        ),
    ]
}

/// A pass over all elements of the batch.
fn move_pass(
    kernel: FftKernel,
    table: Vec<u32>,
    from: FftBuffer,
    to: FftBuffer,
    n: usize,
    batch: usize,
) -> (p: FftPass)
    requires
        n * batch <= usize::MAX,
    ensures
        p.carries_out(planned_move(kernel, table@, from, to, n, batch)),
{
    FftPass { kernel, table, from, to, dispatch: permute_dispatch(n, batch) }
}

/// Appends the stages of a batch.
fn push_stages(
    passes: &mut Vec<FftPass>,
    n: usize,
    factors: &[usize],
    batch: usize,
    inverse: bool,
    Ghost(plan): Ghost<Seq<PlannedPass>>,
)
    requires
        crate::fft_plan::all_positive(factors@),
        n == crate::fft_plan::product(factors@),
        n * batch <= usize::MAX,
        carry_out(old(passes)@, plan),
    ensures
        carry_out(final(passes)@, plan + planned_stages(n, factors@, batch, inverse)),
{
    let ghost f = factors@;
    let ghost goal = plan + planned_stages(n, f, batch, inverse);
    let mut l: usize = 1;
    let mut q: usize = factors.len();
    assert(f.skip(q as int) =~= Seq::<usize>::empty());
    while q > 0
        invariant
            q <= factors.len(),
            f == factors@,
            crate::fft_plan::all_positive(f),
            n == crate::fft_plan::product(f),
            n * batch <= usize::MAX,
            goal == plan + planned_stages(n, f, batch, inverse),
            l == crate::fft_plan::product(f.skip(q as int)),
            passes@.len() == plan.len() + (f.len() - q),
            forall|i: int|
                0 <= i < passes@.len() ==> (#[trigger] passes@[i]).carries_out(goal[i]),
        decreases q,
    {
        let ghost s = f.len() - q;
        let ghost before = f.skip(q as int);
        q = q - 1;
        let ghost now = f.skip(q as int);
        let r: usize = factors[q];
        proof {
            assert(now[0] == f[q as int]);
            assert(now.drop_first() =~= before);
            assert(1 <= f[q as int]);
            crate::fft_plan::lemma_suffix_product(f, q as int);
            crate::fft_plan::lemma_suffix_product(f, q + 1);
            assert(l * r == r * l) by (nonlinear_arith);
            assert(stage_stride(f, s) == l);
            assert(f[f.len() - 1 - s] == r);
            assert(goal[plan.len() + s] == planned_stage(n, f, batch, inverse, s));
        }
        let pass = FftPass {
            kernel: FftKernel::Stage,
            table: Vec::new(),
            from: FftBuffer::Work,
            to: FftBuffer::Work,
            dispatch: stage_dispatch(n, l, r, batch, inverse),
        };
        assert(pass.table@ =~= seq![]);
        passes.push(pass);
        l = l * r;
    }
}

/// The passes of the FFT of a batch of complex sequences.
pub fn fft_passes(n: usize, factors: &[usize], batch: usize, inverse: bool) -> (passes: Vec<
    FftPass,
>)
    requires
        crate::fft_plan::all_positive(factors@),
        n == crate::fft_plan::product(factors@),
        n * batch <= usize::MAX,
    ensures
        carry_out(passes@, fft_plan(n, factors@, batch, inverse)),
{
    let mut passes: Vec<FftPass> = Vec::new();
    let table = digit_reverse_table(n, factors);
    passes.push(
        move_pass(FftKernel::Permute, table, FftBuffer::Input, FftBuffer::Work, n, batch),
    );
    let ghost plan = seq![
        planned_move(
            FftKernel::Permute,
            digit_reverse_words(n as nat, factors@),
            FftBuffer::Input,
            FftBuffer::Work,
            n,
            batch,
        ),
    ];
    push_stages(&mut passes, n, factors, batch, inverse, Ghost(plan));
    passes
}

/// The passes of the DCT-II of a batch of real sequences.
pub fn dct2_passes(n: usize, factors: &[usize], batch: usize) -> (passes: Vec<FftPass>)
    requires
        crate::fft_plan::all_positive(factors@),
        n == crate::fft_plan::product(factors@),
        n * batch <= usize::MAX,
    ensures
        carry_out(passes@, dct2_plan(n, factors@, batch)),
{
    let mut passes: Vec<FftPass> = Vec::new();
    let table = combined_table(n, factors);
    passes.push(
        move_pass(FftKernel::ForwardPermute, table, FftBuffer::Input, FftBuffer::Work, n, batch),
    );
    let ghost plan = seq![
        planned_move(
            FftKernel::ForwardPermute,
            combined_words(n as nat, factors@),
            FftBuffer::Input,
            FftBuffer::Work,
            n,
            batch,
        ),
    ];
    push_stages(&mut passes, n, factors, batch, false, Ghost(plan));
    let none: Vec<u32> = Vec::new();
    assert(none@ =~= seq![]);
    passes.push(
        move_pass(FftKernel::Dct2Post, none, FftBuffer::Work, FftBuffer::Output, n, batch),
    );
    passes
}

/// The passes of the DCT-III of a batch of real sequences.
pub fn dct3_passes(n: usize, factors: &[usize], batch: usize) -> (passes: Vec<FftPass>)
    requires
        crate::fft_plan::all_positive(factors@),
        n == crate::fft_plan::product(factors@),
        n * batch <= usize::MAX,
    ensures
        carry_out(passes@, dct3_plan(n, factors@, batch)),
{
    let mut passes: Vec<FftPass> = Vec::new();
    let none: Vec<u32> = Vec::new();
    assert(none@ =~= seq![]);
    passes.push(
        move_pass(FftKernel::Dct3Pre, none, FftBuffer::Input, FftBuffer::Natural, n, batch),
    );
    let table = digit_reverse_table(n, factors);
    passes.push(
        move_pass(FftKernel::Permute, table, FftBuffer::Natural, FftBuffer::Work, n, batch),
    );
    let ghost plan = seq![
        planned_move(
            FftKernel::Dct3Pre,
            seq![],
            FftBuffer::Input,
            FftBuffer::Natural,
            n,
            batch,
        ),
        planned_move(
            FftKernel::Permute,
            digit_reverse_words(n as nat, factors@),
            FftBuffer::Natural,
            FftBuffer::Work,
            n,
            batch,
        ),
    ];
    push_stages(&mut passes, n, factors, batch, true, Ghost(plan));
    let gather = interleave_table(n);
    passes.push(
        move_pass(FftKernel::Dct3Post, gather, FftBuffer::Work, FftBuffer::Output, n, batch),
    );
    passes
}

} // verus!
