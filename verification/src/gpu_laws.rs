//! What the GPU is handed, read back as the shaders read it, and which frames and
//! axes are handed to it at all.
use crate::dct_backend::{DctAlgorithm, SlotCall, TransformError};
use crate::dct_math::PlaneMath;
use vstd::prelude::*;

verus! {

/// Word `i` of a block, the way a machine reads it that has the least significant
/// byte first, or the most significant one.
pub open spec fn read_word(bytes: Seq<u8>, i: int, least_first: bool) -> int {
    let (a, b, c, d) = (
        bytes[4 * i] as int,
        bytes[4 * i + 1] as int,
        bytes[4 * i + 2] as int,
        bytes[4 * i + 3] as int,
    );
    if least_first {
        a + 0x100 * b + 0x1_0000 * c + 0x100_0000 * d
    } else {
        d + 0x100 * c + 0x1_0000 * b + 0x100_0000 * a
    }
}

/// The block reads back as these words.
pub open spec fn reads_as(bytes: Seq<u8>, least_first: bool, words: Seq<u32>) -> bool {
    &&& bytes.len() == 4 * words.len()
    &&& forall|i: int|
        0 <= i < words.len() ==> #[trigger] read_word(bytes, i, least_first) == words[i]
}

/// The bytes of a word make up the word.
proof fn lemma_bytes_of(word: u32)
    ensures
        crate::gpu::byte_of(word, 0) + 0x100 * crate::gpu::byte_of(word, 1) + 0x1_0000
            * crate::gpu::byte_of(word, 2) + 0x100_0000 * crate::gpu::byte_of(word, 3) == word,
{
}

/// Words that were laid out read back, on the machine that laid them out.
pub(crate) proof fn lemma_reads_back(bytes: Seq<u8>, words: Seq<u32>)
    requires
        bytes == crate::gpu::little_endian(words) || bytes == crate::gpu::big_endian(words),
    ensures
        exists|least_first: bool| #[trigger] reads_as(bytes, least_first, words),
{
    let least_first = bytes == crate::gpu::little_endian(words);
    assert forall|i: int| 0 <= i < words.len() implies #[trigger] read_word(bytes, i, least_first)
        == words[i] by {
        lemma_bytes_of(words[i]);
        assert((4 * i) / 4 == i && (4 * i) % 4 == 0);
        assert((4 * i + 1) / 4 == i && (4 * i + 1) % 4 == 1);
        assert((4 * i + 2) / 4 == i && (4 * i + 2) % 4 == 2);
        assert((4 * i + 3) / 4 == i && (4 * i + 3) % 4 == 3);
    }
    assert(reads_as(bytes, least_first, words));
}

/// A switch, as a shader reads it.
pub open spec fn switch(on: bool) -> int {
    if on {
        1
    } else {
        0
    }
}

/// The parameter block of a pass is eight words, and reads back as what the pass
/// is for, whatever its switches: the width, the height, the bits of the
/// threshold, whether the mask applies, whether the output is clamped, and
/// nothing more.
pub proof fn law_pass_block_reads_back(
    width: u32,
    height: u32,
    threshold_bits: u32,
    apply_mask: bool,
    clamp_output: bool,
    bytes: Vec<u8>,
)
    requires
        call_ensures(
            crate::gpu::pass_params,
            (width, height, threshold_bits, apply_mask, clamp_output),
            bytes,
        ),
    ensures
        bytes@.len() == 32,
        exists|least_first: bool|
            {
                &&& #[trigger] read_word(bytes@, 0, least_first) == width
                &&& read_word(bytes@, 1, least_first) == height
                &&& read_word(bytes@, 2, least_first) == threshold_bits
                &&& read_word(bytes@, 3, least_first) == switch(apply_mask)
                &&& read_word(bytes@, 4, least_first) == switch(clamp_output)
                &&& read_word(bytes@, 5, least_first) == 0
                &&& read_word(bytes@, 6, least_first) == 0
                &&& read_word(bytes@, 7, least_first) == 0
            },
{
    let words = crate::gpu::pass_words(width, height, threshold_bits, apply_mask, clamp_output);
    lemma_reads_back(bytes@, words);
    let least_first = choose|least_first: bool| #[trigger] reads_as(bytes@, least_first, words);
    assert(read_word(bytes@, 0, least_first) == words[0]);
    assert(read_word(bytes@, 1, least_first) == words[1]);
    assert(read_word(bytes@, 2, least_first) == words[2]);
    assert(read_word(bytes@, 3, least_first) == words[3]);
    assert(read_word(bytes@, 4, least_first) == words[4]);
    assert(read_word(bytes@, 5, least_first) == words[5]);
    assert(read_word(bytes@, 6, least_first) == words[6]);
    assert(read_word(bytes@, 7, least_first) == words[7]);
}

/// A shader ran a pass, taking the frame size and both switches from the block,
/// and the axis, the direction and the buffers from the pass.
pub open spec fn shader_ran<M: PlaneMath>(
    m: &M,
    pass: crate::gpu::Pass,
    block: Seq<u8>,
    least_first: bool,
    rows: Seq<M::Sample>,
    cols: Seq<M::Sample>,
    t: M::Threshold,
    before: crate::gpu::PlaneState<M::Sample>,
    after: crate::gpu::PlaneState<M::Sample>,
) -> bool {
    crate::gpu::pass_done(
        m,
        crate::gpu::Pass {
            apply_mask: read_word(block, 3, least_first) == 1,
            clamp_output: read_word(block, 4, least_first) == 1,
            ..pass
        },
        read_word(block, 0, least_first),
        read_word(block, 1, least_first),
        rows,
        cols,
        t,
        before,
        after,
    )
}

/// The passes, each run by a shader that knows the frame only from the block of
/// that pass, leave in `B` the transform of the uploaded plane as a plane of
/// `width` by `height`.
pub proof fn law_shaders_transform_the_plane<M: PlaneMath>(
    m: &M,
    width: u32,
    height: u32,
    threshold_bits: u32,
    cutoff: M::Cutoff,
    rows: Seq<M::Sample>,
    cols: Seq<M::Sample>,
    t: M::Threshold,
    passes: [crate::gpu::Pass; 4],
    blocks: Seq<Vec<u8>>,
    states: Seq<crate::gpu::PlaneState<M::Sample>>,
)
    requires
        crate::dct_math::is_basis(m, width as int, rows),
        crate::dct_math::is_basis(m, height as int, cols),
        call_ensures(M::threshold, (m, cutoff), t),
        call_ensures(crate::gpu::plane_passes, (), passes),
        blocks.len() == 4,
        states.len() == 5,
        forall|i: int|
            0 <= i < 4 ==> call_ensures(
                crate::gpu::pass_params,
                (width, height, threshold_bits, passes@[i].apply_mask, passes@[i].clamp_output),
                #[trigger] blocks[i],
            ),
        forall|i: int, least_first: bool|
            0 <= i < 4 && #[trigger] read_word(blocks[i]@, 0, least_first) == width
                && read_word(blocks[i]@, 1, least_first) == height && read_word(
                blocks[i]@,
                3,
                least_first,
            ) == switch(passes@[i].apply_mask) && read_word(blocks[i]@, 4, least_first) == switch(
                passes@[i].clamp_output,
            ) ==> shader_ran(
                m,
                passes@[i],
                blocks[i]@,
                least_first,
                rows,
                cols,
                t,
                states[i],
                states[i + 1],
            ),
    ensures
        crate::cpu::plane_done(
            m,
            states.first().input,
            width as int,
            height as int,
            cutoff,
            states.last().b,
        ),
{
    assert(passes@ == crate::gpu::passes());
    assert forall|i: int| 0 <= i < 4 implies #[trigger] crate::gpu::pass_done(
        m,
        crate::gpu::passes()[i],
        width as int,
        height as int,
        rows,
        cols,
        t,
        states[i],
        states[i + 1],
    ) by {
        law_pass_block_reads_back(
            width,
            height,
            threshold_bits,
            passes@[i].apply_mask,
            passes@[i].clamp_output,
            blocks[i],
        );
        let least_first = choose|least_first: bool|
            {
                &&& #[trigger] read_word(blocks[i]@, 0, least_first) == width
                &&& read_word(blocks[i]@, 1, least_first) == height
                &&& read_word(blocks[i]@, 2, least_first) == threshold_bits
                &&& read_word(blocks[i]@, 3, least_first) == switch(passes@[i].apply_mask)
                &&& read_word(blocks[i]@, 4, least_first) == switch(passes@[i].clamp_output)
                &&& read_word(blocks[i]@, 5, least_first) == 0
                &&& read_word(blocks[i]@, 6, least_first) == 0
                &&& read_word(blocks[i]@, 7, least_first) == 0
            };
        assert(shader_ran(
            m,
            passes@[i],
            blocks[i]@,
            least_first,
            rows,
            cols,
            t,
            states[i],
            states[i + 1],
        ));
    }
    crate::gpu::law_passes_transform_the_plane(
        m,
        width as int,
        height as int,
        cutoff,
        rows,
        cols,
        t,
        states,
    );
}

/// Workgroups of `b` items take in `a` items: enough of them, and none in vain.
pub proof fn law_groups_are_just_enough(a: u32, b: u32, r: u32)
    requires
        b > 0,
        call_ensures(crate::gpu::groups_of, (a, b), r),
    ensures
        r * b >= a,
        r > 0 ==> (r - 1) * b < a,
        r == 0 <==> a == 0,
        crate::gpu::TILE == 16,
{
    if a > 0 {
        crate::gpu::law_groups_cover(a as int, b as int);
        if r == 0 {
            assert(r * b == 0) by (nonlinear_arith)
                requires
                    r == 0,
            ;
        }
    } else {
        crate::arith::lemma_div_mod_of(b - 1, b as int, 0, b - 1);
    }
}

/// A plane is taken by the device exactly if it has pixels, as many as its size
/// says, and if each of the two square matrices of four-byte numbers fits one
/// binding; its size in bytes is then four times its pixels. Else the first of
/// these conditions that fails is the one that is reported.
pub proof fn law_device_takes_what_fits(
    len: usize,
    width: u32,
    height: u32,
    max_binding: u64,
    res: Result<u64, TransformError>,
)
    requires
        call_ensures(crate::gpu::check_plane, (len, width, height, max_binding), res),
    ensures
        ({
            let empty = width == 0 || height == 0;
            let wrong = len != width * height;
            let large = 4 * (width * width) > max_binding || 4 * (height * height) > max_binding;
            &&& res is Ok <==> !empty && !wrong && !large
            &&& res matches Ok(size) ==> size == 4 * (width * height)
            &&& res matches Err(e) ==> if empty {
                e == (TransformError::ZeroDimension { width, height })
            } else if wrong {
                e is WrongLength && e->len == len && e->expected == width * height
            } else {
                e == (TransformError::BasisTooLarge { width, height, max_binding })
            }
        }),
{
    assert(width * height <= u64::MAX) by (nonlinear_arith)
        requires
            width <= u32::MAX,
            height <= u32::MAX,
    ;
}

/// What is done to kept buffers follows from what changed since the last call: a
/// new size rebuilds them, a new cutoff alone rewrites the threshold, and nothing
/// new leaves them alone. The first call builds them.
pub proof fn law_buffers_follow_the_changes(
    width: u32,
    height: u32,
    cutoff_bits: u32,
    step: crate::gpu::CacheStep,
)
    ensures
        forall|k: &mut crate::gpu::KeptBuffers|
            #[trigger] call_ensures(
                crate::gpu::KeptBuffers::cache_step,
                (k, width, height, cutoff_bits),
                step,
            ) ==> {
                let (before, after) = ((*k).content(), (*final(k)).content());
                &&& after is Some && after->Some_0.width == width && after->Some_0.height == height
                    && after->Some_0.cutoff_bits == cutoff_bits
                &&& before is None ==> step is Rebuild
                &&& before matches Some(was) ==> {
                    let resized = was.width != width || was.height != height;
                    &&& step is Rebuild <==> resized
                    &&& step is UpdateCutoff <==> !resized && was.cutoff_bits != cutoff_bits
                    &&& step is Reuse <==> !resized && was.cutoff_bits == cutoff_bits
                }
            },
{
}

/// `f` is a list of 2, 3, 5 and 7 that never falls, and multiplies to `n`.
pub open spec fn rising_split(n: int, f: Seq<usize>) -> bool {
    &&& crate::fft_plan::product(f) == n
    &&& forall|i: int|
        #![trigger f[i]]
        0 <= i < f.len() ==> f[i] == 2 || f[i] == 3 || f[i] == 5 || f[i] == 7
    &&& forall|i: int, j: int| 0 <= i <= j < f.len() ==> f[i] <= f[j]
}

/// The product of a list of factors grows by each factor put in front of it.
pub proof fn law_product_multiplies(r: usize, f: Seq<usize>)
    ensures
        crate::fft_plan::product(Seq::<usize>::empty()) == 1,
        crate::fft_plan::product(seq![r] + f) == r * crate::fft_plan::product(f),
{
    assert((seq![r] + f).drop_first() =~= f);
}

/// A number of 2 and more is factored exactly if it is a product of 2, 3, 5 and 7,
/// and then into just these, smallest first.
pub proof fn law_factors_are_small_primes(n: usize, r: Option<Vec<usize>>)
    requires
        call_ensures(crate::fft_plan::factor_mixed_radix, (n,), r),
    ensures
        r matches Some(f) ==> n >= 2 && rising_split(n as int, f@),
        forall|f: Seq<usize>| n >= 2 && #[trigger] rising_split(n as int, f) ==> r is Some
            && r->Some_0@ == f,
{
    if let Some(f) = r {
        crate::plan_laws::law_split_multiplies_back(n as nat, f@);
        assert forall|i: int| 0 <= i < f@.len() implies #[trigger] f@[i] == 2 || f@[i] == 3 || f@[i]
            == 5 || f@[i] == 7 by {
            assert(crate::fft_plan::is_radix(f@[i]));
        }
    }
    assert forall|f: Seq<usize>| n >= 2 && #[trigger] rising_split(n as int, f) implies r is Some
        && r->Some_0@ == f by {
        assert forall|i: int| 0 <= i < f.len() implies crate::fft_plan::is_radix(
            #[trigger] f[i],
        ) by {}
        crate::plan_laws::law_split_is_unique(f);
    }
}

/// A length is eligible exactly if it is even and a product of 2, 3, 5 and 7.
pub proof fn law_even_products_are_eligible(n: usize, r: Option<Vec<usize>>)
    requires
        call_ensures(crate::fft_plan::fft_eligible, (n,), r),
    ensures
        r matches Some(f) ==> n >= 2 && n % 2 == 0 && rising_split(n as int, f@),
        forall|f: Seq<usize>|
            n >= 2 && n % 2 == 0 && #[trigger] rising_split(n as int, f) ==> r is Some
                && r->Some_0@ == f,
{
    if let Some(f) = r {
        crate::plan_laws::law_split_multiplies_back(n as nat, f@);
        assert forall|i: int| 0 <= i < f@.len() implies #[trigger] f@[i] == 2 || f@[i] == 3 || f@[i]
            == 5 || f@[i] == 7 by {
            assert(crate::fft_plan::is_radix(f@[i]));
        }
    }
    assert forall|f: Seq<usize>| n >= 2 && n % 2 == 0 && #[trigger] rising_split(n as int, f)
        implies r is Some && r->Some_0@ == f by {
        assert forall|i: int| 0 <= i < f.len() implies crate::fft_plan::is_radix(
            #[trigger] f[i],
        ) by {}
        crate::plan_laws::law_split_is_unique(f);
    }
}

/// An axis takes the FFT exactly if that is the algorithm, its length is even,
/// and a product of 2, 3, 5 and 7; under the matrix multiply no axis does.
pub proof fn law_axis_takes_the_fft(n: u32, algorithm: DctAlgorithm, r: Option<Vec<usize>>)
    requires
        call_ensures(crate::gpu::axis_plan, (n, algorithm), r),
    ensures
        algorithm is Gemm ==> r is None,
        r matches Some(f) ==> n >= 2 && n % 2 == 0 && rising_split(n as int, f@),
        forall|f: Seq<usize>|
            algorithm is Fft && n >= 2 && n % 2 == 0 && #[trigger] rising_split(n as int, f)
                ==> r is Some && r->Some_0@ == f,
{
    if let Some(f) = r {
        crate::plan_laws::law_split_multiplies_back(n as nat, f@);
        assert forall|i: int| 0 <= i < f@.len() implies #[trigger] f@[i] == 2 || f@[i] == 3 || f@[i]
            == 5 || f@[i] == 7 by {
            assert(crate::fft_plan::is_radix(f@[i]));
        }
    }
    assert forall|f: Seq<usize>|
        algorithm is Fft && n >= 2 && n % 2 == 0 && #[trigger] rising_split(n as int, f)
            implies r is Some && r->Some_0@ == f by {
        assert forall|i: int| 0 <= i < f.len() implies crate::fft_plan::is_radix(
            #[trigger] f[i],
        ) by {}
        crate::plan_laws::law_split_is_unique(f);
    }
}

/// The two axes of a frame are planned each by its own length, the rows by the
/// width and the columns by the height; there is a plan if either takes the FFT.
pub proof fn law_axes_are_planned_apart(
    width: u32,
    height: u32,
    algorithm: DctAlgorithm,
    rows: Option<Vec<usize>>,
    cols: Option<Vec<usize>>,
    r: Option<crate::gpu::AxisPlans>,
)
    requires
        call_ensures(crate::gpu::axis_plan, (width, algorithm), rows),
        call_ensures(crate::gpu::axis_plan, (height, algorithm), cols),
        call_ensures(crate::gpu::axis_plans, (width, height, algorithm), r),
    ensures
        r is Some <==> rows is Some || cols is Some,
        r matches Some(plans) ==> {
            &&& plans.rows is Some <==> rows is Some
            &&& plans.cols is Some <==> cols is Some
            &&& plans.rows is Some ==> plans.rows->Some_0@ == rows->Some_0@
            &&& plans.cols is Some ==> plans.cols->Some_0@ == cols->Some_0@
        },
{
}

/// There are six buffer sets, one for each color plane of each of the two slots,
/// and a slot beyond the two has none.
pub proof fn law_planes_have_buffers_of_their_own(
    call: SlotCall,
    slot: usize,
    channel: usize,
    res: Result<usize, TransformError>,
    other_call: SlotCall,
    other_slot: usize,
    other_channel: usize,
    other: Result<usize, TransformError>,
)
    requires
        channel < 3,
        other_channel < 3,
        call_ensures(crate::gpu::buffer_set, (call, slot, channel), res),
        call_ensures(crate::gpu::buffer_set, (other_call, other_slot, other_channel), other),
    ensures
        res is Ok <==> slot < 2,
        res matches Ok(set) ==> set < 6,
        res matches Err(e) ==> e == (TransformError::NoSuchSlot { call, slot }),
        res is Ok && other is Ok ==> (res->Ok_0 == other->Ok_0 <==> slot == other_slot && channel
            == other_channel),
{
}

/// Waiting for the device succeeds exactly if it finished; what it reported is
/// passed on behind a few words, and a wait that ran out names the seconds it took.
pub proof fn law_wait_succeeds_if_the_device_does(
    outcome: crate::gpu::PollOutcome,
    res: Result<(), TransformError>,
)
    requires
        call_ensures(crate::gpu::poll_result, (outcome,), res),
    ensures
        res is Ok <==> outcome is Done,
        outcome matches crate::gpu::PollOutcome::Failed(e) ==> (res matches Err(
            TransformError::Device(text),
        ) && text@ == "gpu poll failed: "@ + e@),
        outcome is TimedOut ==> (res matches Err(TransformError::Device(text)) && text@
            == "GPU did not respond within 30s - likely a driver reset (Windows TDR) from a too-slow DCT dispatch at this resolution; try --backend cpu or a lower resolution"@),
        crate::gpu::POLL_TIMEOUT_SECS == 30,
{
}

/// What a device returns for a batch counts exactly if it is a batch of the same
/// length, and is then taken as it is; an error is passed on, and an answer of
/// another length is an error that names both lengths.
pub proof fn law_answers_of_another_length_are_errors<S>(
    given: Result<Vec<S>, TransformError>,
    len: nat,
)
    requires
        len <= u64::MAX,
    ensures
        ({
            let r = crate::fft_plane::taken(given, len);
            &&& r is Ok <==> given is Ok && given->Ok_0@.len() == len
            &&& r is Ok ==> r->Ok_0 == given->Ok_0@
            &&& given is Err ==> r is Err && r->Err_0 == given->Err_0
            &&& given is Ok && r is Err ==> r->Err_0 is WrongLength && r->Err_0->len
                == given->Ok_0@.len() && r->Err_0->expected == len
        }),
{
    if let Ok(v) = given {
        assert(v@.len() == v.len());
    }
}

/// A table is uploaded word by word.
pub proof fn law_table_reads_back(pass: &crate::fft_dispatch::FftPass, bytes: Vec<u8>)
    requires
        call_ensures(crate::fft_dispatch::FftPass::table_bytes, (pass,), bytes),
    ensures
        exists|least_first: bool| #[trigger] reads_as(bytes@, least_first, pass.table@),
{
    lemma_reads_back(bytes@, pass.table@);
}

/// A permutation pass reads back as the length and the batch, and is dispatched
/// to enough workgroups of 256 for every element of the batch, and none in vain.
pub proof fn law_permute_block_reads_back(
    n: usize,
    batch: usize,
    d: crate::fft_dispatch::Dispatch,
)
    requires
        0 < n * batch <= u32::MAX,
        call_ensures(crate::fft_dispatch::permute_dispatch, (n, batch), d),
    ensures
        exists|least_first: bool|
            #[trigger] read_word(d.params@, 0, least_first) == n && read_word(
                d.params@,
                1,
                least_first,
            ) == batch,
        d.params@.len() == 16,
        d.workgroups * 256 >= n * batch,
        (d.workgroups - 1) * 256 < n * batch,
{
    lemma_small(n as int, batch as int);
    let words = crate::fft_dispatch::perm_words(n, batch);
    lemma_reads_back(d.params@, words);
    let least_first = choose|least_first: bool| #[trigger] reads_as(d.params@, least_first, words);
    assert(read_word(d.params@, 0, least_first) == words[0]);
    assert(read_word(d.params@, 1, least_first) == words[1]);
    crate::gpu::law_groups_cover(n * batch, 256);
}

/// Both factors of a product within a word are within a word.
pub(crate) proof fn lemma_small(a: int, b: int)
    requires
        0 <= a,
        0 <= b,
        0 < a * b <= u32::MAX,
    ensures
        0 < a <= u32::MAX,
        0 < b <= u32::MAX,
{
    assert(0 < a <= a * b && 0 < b <= a * b) by (nonlinear_arith)
        requires
            0 <= a,
            0 <= b,
            0 < a * b,
    ;
}

/// A stage reads back as its length, its stride, its radix and its batch, and a
/// sign that is the number 1 going back and, but for the sign bit, the same going
/// forth. Its butterflies, of `radix` elements each, take in every element of the
/// batch, and its workgroups of 256 every butterfly, with none in vain.
pub proof fn law_stage_block_reads_back(
    n: usize,
    l: usize,
    r: usize,
    batch: usize,
    inverse: bool,
    d: crate::fft_dispatch::Dispatch,
    butterflies: int,
)
    requires
        1 <= l,
        1 <= r,
        0 < n * batch <= u32::MAX,
        n == (l * r) * (n as int / (l * r)),
        butterflies * r == n * batch,
        call_ensures(crate::fft_dispatch::stage_dispatch, (n, l, r, batch, inverse), d),
    ensures
        exists|least_first: bool|
            {
                &&& #[trigger] read_word(d.params@, 0, least_first) == n
                &&& read_word(d.params@, 1, least_first) == l
                &&& read_word(d.params@, 2, least_first) == r
                &&& read_word(d.params@, 3, least_first) == batch
                &&& read_word(d.params@, 4, least_first) == (if inverse {
                    0x3F80_0000int
                } else {
                    0x3F80_0000int + 0x8000_0000int
                })
            },
        d.params@.len() == 32,
        d.workgroups * 256 >= butterflies,
        (d.workgroups - 1) * 256 < butterflies,
{
    let (ni, li, ri, bi) = (n as int, l as int, r as int, batch as int);
    lemma_small(ni, bi);
    let g = ni / (li * ri);
    assert(g > 0 && li <= ni && ri <= ni) by (nonlinear_arith)
        requires
            ni == (li * ri) * g,
            ni > 0,
            li >= 1,
            ri >= 1,
    {
        assert(g > 0);
        assert(li * ri >= li && li * ri >= ri);
        assert((li * ri) * g >= li * ri);
    }
    let words = crate::fft_dispatch::stage_words(n, l, r, batch, inverse);
    lemma_reads_back(d.params@, words);
    let least_first = choose|least_first: bool| #[trigger] reads_as(d.params@, least_first, words);
    assert(read_word(d.params@, 0, least_first) == words[0]);
    assert(read_word(d.params@, 1, least_first) == words[1]);
    assert(read_word(d.params@, 2, least_first) == words[2]);
    assert(read_word(d.params@, 3, least_first) == words[3]);
    assert(read_word(d.params@, 4, least_first) == words[4]);
    assert(g * li * bi == butterflies) by (nonlinear_arith)
        requires
            ni == (li * ri) * g,
            butterflies * ri == ni * bi,
            ri >= 1,
    {
        assert((g * li * bi) * ri == butterflies * ri);
    }
    assert(0 < butterflies <= n * batch) by (nonlinear_arith)
        requires
            butterflies * ri == n * batch,
            n * batch > 0,
            ri >= 1,
    ;
    crate::gpu::law_groups_cover(butterflies, 256);
}

} // verus!
