//! What the GPU backend decides before it touches the device: which frames it
//! takes, which buffers it keeps, and the passes it dispatches.
use crate::dct_backend::{check_length, DctAlgorithm, SlotCall, TransformError};
use crate::dct_math::PlaneMath;
use crate::fft_plan::fft_eligible;
use vstd::prelude::*;

verus! {

/// `bytemuck::cast_slice` from words to bytes: the bytes of the words in memory
/// order, four to a word. Which end of a word comes first is the machine's
/// choice, the same for every word.
#[verifier::external_body]
pub(crate) fn word_bytes(words: &[u32]) -> (bytes: Vec<u8>)
    ensures
        bytes@ == little_endian(words@) || bytes@ == big_endian(words@),
{
    bytemuck::cast_slice::<u32, u8>(words).to_vec()
}

/// Byte `i` of a word, counted from the least significant one.
pub open spec fn byte_of(word: u32, i: int) -> u8 {
    if i == 0 {
        (word % 0x100) as u8
    } else if i == 1 {
        (word / 0x100 % 0x100) as u8
    } else if i == 2 {
        (word / 0x1_0000 % 0x100) as u8
    } else {
        (word / 0x100_0000) as u8
    }
}

/// The bytes of `words`, the least significant one of each word first.
pub open spec fn little_endian(words: Seq<u32>) -> Seq<u8> {
    Seq::new(4 * words.len(), |i: int| byte_of(words[i / 4], i % 4))
}

/// The bytes of `words`, the most significant one of each word first.
pub open spec fn big_endian(words: Seq<u32>) -> Seq<u8> {
    Seq::new(4 * words.len(), |i: int| byte_of(words[i / 4], 3 - i % 4))
}

/// The side of one workgroup's tile, as in the shader.
pub const TILE: u32 = 16;

/// `a` divided by `b`, rounded up.
pub open spec fn ceil_div(a: int, b: int) -> int {
    (a + b - 1) / b
}

/// How many workgroups of `b` items `a` items take.
pub fn groups_of(a: u32, b: u32) -> (r: u32)
    requires
        b > 0,
    ensures
        r == ceil_div(a as int, b as int),
{
    let (q, rest): (u32, u32) = (a / b, a % b);
    proof {
        lemma_ceil(a as int, b as int);
        assert(q as int <= a) by (nonlinear_arith)
            requires
                q == a / b,
                b > 0,
        ;
        if rest > 0 && q == a {
            assert(a == b * q + rest) by (nonlinear_arith)
                requires
                    q == a / b,
                    rest == a % b,
                    b > 0,
            ;
            assert(b * q >= q) by (nonlinear_arith)
                requires
                    b >= 1,
            ;
        }
    }
    if rest == 0 {
        q
    } else {
        q + 1
    }
}

/// Rounding up, by quotient and remainder.
proof fn lemma_ceil(a: int, b: int)
    requires
        0 <= a,
        b > 0,
    ensures
        ceil_div(a, b) == a / b + (if a % b == 0 {
            0int
        } else {
            1int
        }),
{
    vstd::arithmetic::div_mod::lemma_fundamental_div_mod(a, b);
    let (q, rest) = (a / b, a % b);
    assert(b * q == q * b) by (nonlinear_arith);
    if rest == 0 {
        crate::arith::lemma_div_mod_of(a + b - 1, b, q, b - 1);
    } else {
        assert((q + 1) * b == q * b + b) by (nonlinear_arith);
        crate::arith::lemma_div_mod_of(a + b - 1, b, q + 1, rest - 1);
    }
}

/// The workgroups cover every item, and one fewer would not.
pub proof fn law_groups_cover(a: int, b: int)
    requires
        0 < a,
        b > 0,
    ensures
        ceil_div(a, b) * b >= a,
        (ceil_div(a, b) - 1) * b < a,
{
    lemma_ceil(a, b);
    vstd::arithmetic::div_mod::lemma_fundamental_div_mod(a, b);
    let (q, rest, c) = (a / b, a % b, ceil_div(a, b));
    assert(c * b >= a && (c - 1) * b < a) by (nonlinear_arith)
        requires
            a == b * q + rest,
            0 <= rest < b,
            c == q + (if rest == 0 {
                0int
            } else {
                1int
            }),
            a > 0,
    ;
}

/// Why the GPU turns a plane down, if it does: a frame it cannot have, or basis
/// matrices of four bytes a cell that do not fit one binding.
pub open spec fn gpu_plane_error(
    len: nat,
    width: u32,
    height: u32,
    max_binding: u64,
) -> Option<TransformError> {
    if crate::dct_backend::plane_error(len, width, height) is Some {
        crate::dct_backend::plane_error(len, width, height)
    } else if width * width * 4 > max_binding || height * height * 4 > max_binding {
        Some(TransformError::BasisTooLarge { width, height, max_binding })
    } else {
        None
    }
}

/// Checks a plane of `len` samples before anything is allocated for it, and
/// gives its size in bytes.
pub fn check_plane(len: usize, width: u32, height: u32, max_binding: u64) -> (res: Result<
    u64,
    TransformError,
>)
    ensures
        match res {
            Ok(size) => size == len * 4 && gpu_plane_error(len as nat, width, height, max_binding)
                is None,
            Err(e) => gpu_plane_error(len as nat, width, height, max_binding) == Some(e),
        },
{
    match check_length(len, width, height) {
        Ok(()) => {},
        Err(e) => return Err(e),
    }
    assert(width * width * 4 <= u128::MAX && width * width <= u128::MAX) by (nonlinear_arith)
        requires
            width <= u32::MAX,
    ;
    assert(height * height * 4 <= u128::MAX && height * height <= u128::MAX) by (nonlinear_arith)
        requires
            height <= u32::MAX,
    ;
    let row_basis_bytes: u128 = width as u128 * width as u128 * 4;
    let col_basis_bytes: u128 = height as u128 * height as u128 * 4;
    if row_basis_bytes > max_binding as u128 || col_basis_bytes > max_binding as u128 {
        return Err(TransformError::BasisTooLarge { width, height, max_binding });
    }
    assert(width * height * 4 <= max_binding) by (nonlinear_arith)
        requires
            width * width * 4 <= max_binding,
            height * height * 4 <= max_binding,
    {
        if width <= height {
            assert(width * height <= height * height);
        } else {
            assert(width * height <= width * width);
        }
    }
    Ok(len as u64 * 4)
}

/// What is to be done to a channel's kept buffers before a plane is uploaded.
#[derive(Debug, Clone, Copy, PartialEq, Eq, Structural)]
pub enum CacheStep {
    /// There are none, or they are for another frame size: build all of them.
    Rebuild,
    /// Only the cutoff moved: rewrite the threshold, keep the basis matrices.
    UpdateCutoff,
    /// They fit as they are.
    Reuse,
}

/// What the buffers of one plane are for: a frame size and the bits of a cutoff.
#[derive(Debug, Clone, Copy, PartialEq, Eq, Structural)]
pub struct BufferContent {
    pub width: u32,
    pub height: u32,
    pub cutoff_bits: u32,
}

/// What buffers that hold `before` need for a plane of `wanted`.
pub open spec fn cache_step_for(before: Option<BufferContent>, wanted: BufferContent) -> CacheStep {
    match before {
        Some(b) => if b.width != wanted.width || b.height != wanted.height {
            CacheStep::Rebuild
        } else if b.cutoff_bits != wanted.cutoff_bits {
            CacheStep::UpdateCutoff
        } else {
            CacheStep::Reuse
        },
        None => CacheStep::Rebuild,
    }
}

/// What the buffers hold once a step is taken: a rebuild writes everything, an
/// update the cutoff alone, and a reuse nothing.
pub open spec fn content_after(
    before: Option<BufferContent>,
    step: CacheStep,
    wanted: BufferContent,
) -> Option<BufferContent> {
    match (step, before) {
        (CacheStep::Rebuild, _) => Some(wanted),
        (CacheStep::UpdateCutoff, Some(b)) => Some(
            BufferContent { cutoff_bits: wanted.cutoff_bits, ..b },
        ),
        (CacheStep::UpdateCutoff, None) => None,
        (CacheStep::Reuse, _) => before,
    }
}

/// Whatever the buffers held before, after the step they hold what the call
/// asks for, and nothing of earlier calls: a plane comes out as from fresh
/// buffers. A change of the cutoff alone takes effect in the call that brings it.
pub proof fn law_buffers_hold_what_the_call_asks(
    before: Option<BufferContent>,
    wanted: BufferContent,
)
    ensures
        content_after(before, cache_step_for(before, wanted), wanted) == Some(wanted),
        content_after(before, cache_step_for(before, wanted), wanted) == content_after(
            None,
            cache_step_for(None, wanted),
            wanted,
        ),
        cache_step_for(before, wanted) == CacheStep::Reuse <==> before == Some(wanted),
{
}

/// What is known of the buffers kept for one plane.
pub struct KeptBuffers {
    content: Option<BufferContent>,
}

impl KeptBuffers {
    /// What the buffers hold.
    pub closed spec fn content(self) -> Option<BufferContent> {
        self.content
    }

    /// No buffers are kept yet.
    pub fn new() -> (k: Self)
        ensures
            k.content() is None,
    {
        KeptBuffers { content: None }
    }

    /// Decides what to do to the buffers before a plane of this size and cutoff
    /// is uploaded. They count as brought up to date.
    pub fn cache_step(&mut self, width: u32, height: u32, cutoff_bits: u32) -> (step: CacheStep)
        ensures
            step == cache_step_for(
                old(self).content(),
                BufferContent { width, height, cutoff_bits },
            ),
            final(self).content() == Some(BufferContent { width, height, cutoff_bits }),
            final(self).content() == content_after(
                old(self).content(),
                step,
                BufferContent { width, height, cutoff_bits },
            ),
    {
        let step = match self.content {
            Some(b) => if b.width != width || b.height != height {
                CacheStep::Rebuild
            } else if b.cutoff_bits != cutoff_bits {
                CacheStep::UpdateCutoff
            } else {
                CacheStep::Reuse
            },
            None => CacheStep::Rebuild,
        };
        self.content = Some(BufferContent { width, height, cutoff_bits });
        step
    }
}

/// The axis a pass transforms along.
#[derive(Debug, Clone, Copy, PartialEq, Eq, Structural)]
pub enum Axis {
    Row,
    Column,
}

/// The buffers of one plane that passes read and write.
#[derive(Debug, Clone, Copy, PartialEq, Eq, Structural)]
pub enum PlaneBuffer {
    Input,
    A,
    B,
}

/// One pass of the separable transform.
#[derive(Debug, Clone, Copy, PartialEq, Eq, Structural)]
pub struct Pass {
    pub axis: Axis,
    /// Whether the transposed basis serves, which is the inverse direction.
    pub inverse: bool,
    /// Whether coefficients beyond the cutoff are dropped.
    pub apply_mask: bool,
    /// Whether the result is held to the range of a pixel.
    pub clamp_output: bool,
    pub from: PlaneBuffer,
    pub to: PlaneBuffer,
}

/// The passes of one plane: rows forward, columns forward with the cutoff,
/// columns back, rows back with the clamp.
pub open spec fn passes() -> Seq<Pass> {
    seq![
        Pass {
            axis: Axis::Row,
            inverse: false,
            apply_mask: false,
            clamp_output: false,
            from: PlaneBuffer::Input,
            to: PlaneBuffer::A,
        },
        Pass {
            axis: Axis::Column,
            inverse: false,
            apply_mask: true,
            clamp_output: false,
            from: PlaneBuffer::A,
            to: PlaneBuffer::B,
        },
        Pass {
            axis: Axis::Column,
            inverse: true,
            apply_mask: false,
            clamp_output: false,
            from: PlaneBuffer::B,
            to: PlaneBuffer::A,
        },
        Pass {
            axis: Axis::Row,
            inverse: true,
            apply_mask: false,
            clamp_output: true,
            from: PlaneBuffer::A,
            to: PlaneBuffer::B,
        },
    ]
}

/// The passes of one plane, in the order they are dispatched.
pub fn plane_passes() -> (r: [Pass; 4])
    ensures
        r@ == passes(),
{
    let r = [
        Pass {
            axis: Axis::Row,
            inverse: false,
            apply_mask: false,
            clamp_output: false,
            from: PlaneBuffer::Input,
            to: PlaneBuffer::A,
        },
        Pass {
            axis: Axis::Column,
            inverse: false,
            apply_mask: true,
            clamp_output: false,
            from: PlaneBuffer::A,
            to: PlaneBuffer::B,
        },
        Pass {
            axis: Axis::Column,
            inverse: true,
            apply_mask: false,
            clamp_output: false,
            from: PlaneBuffer::B,
            to: PlaneBuffer::A,
        },
        Pass {
            axis: Axis::Row,
            inverse: true,
            apply_mask: false,
            clamp_output: true,
            from: PlaneBuffer::A,
            to: PlaneBuffer::B,
        },
    ];
    assert(r@ =~= passes());
    r
}

/// The passes form a chain: the first reads the upload, each later one what the
/// one before it wrote, none writes what it reads, and the result ends in `B`.
pub proof fn law_passes_form_a_chain()
    ensures
        passes().first().from == PlaneBuffer::Input,
        passes().last().to == PlaneBuffer::B,
        forall|i: int| 0 < i < passes().len() ==> #[trigger] passes()[i].from == passes()[i - 1].to,
        forall|i: int|
            0 <= i < passes().len() ==> #[trigger] passes()[i].from != passes()[i].to
                && passes()[i].to != PlaneBuffer::Input,
{
}

/// What the three buffers of a plane hold.
pub ghost struct PlaneState<S> {
    pub input: Seq<S>,
    pub a: Seq<S>,
    pub b: Seq<S>,
}

impl<S> PlaneState<S> {
    /// What one of the buffers holds.
    pub open spec fn of(self, buffer: PlaneBuffer) -> Seq<S> {
        match buffer {
            PlaneBuffer::Input => self.input,
            PlaneBuffer::A => self.a,
            PlaneBuffer::B => self.b,
        }
    }
}

/// A pass did to the buffers what it stands for, and left the others alone.
pub open spec fn pass_done<M: PlaneMath>(
    m: &M,
    pass: Pass,
    w: int,
    h: int,
    rows: Seq<M::Sample>,
    cols: Seq<M::Sample>,
    t: M::Threshold,
    before: PlaneState<M::Sample>,
    after: PlaneState<M::Sample>,
) -> bool {
    &&& forall|other: PlaneBuffer|
        other != pass.to ==> #[trigger] after.of(other) == before.of(other)
    &&& match pass.axis {
        Axis::Row => crate::cpu::row_pass(
            m,
            before.of(pass.from),
            w,
            h,
            if pass.inverse {
                crate::dct_math::transposed(rows, w)
            } else {
                rows
            },
            pass.clamp_output,
            after.of(pass.to),
        ),
        Axis::Column => crate::cpu::column_pass(
            m,
            before.of(pass.from),
            w,
            h,
            if pass.inverse {
                crate::dct_math::transposed(cols, h)
            } else {
                cols
            },
            if pass.apply_mask {
                Some(t)
            } else {
                None
            },
            after.of(pass.to),
        ),
    }
}

/// The passes compute what the CPU computes: run in order on an uploaded plane,
/// they leave its transform in `B`.
pub proof fn law_passes_transform_the_plane<M: PlaneMath>(
    m: &M,
    w: int,
    h: int,
    cutoff: M::Cutoff,
    rows: Seq<M::Sample>,
    cols: Seq<M::Sample>,
    t: M::Threshold,
    states: Seq<PlaneState<M::Sample>>,
)
    requires
        crate::dct_math::is_basis(m, w, rows),
        crate::dct_math::is_basis(m, h, cols),
        call_ensures(M::threshold, (m, cutoff), t),
        states.len() == passes().len() + 1,
        forall|i: int|
            0 <= i < passes().len() ==> #[trigger] pass_done(
                m,
                passes()[i],
                w,
                h,
                rows,
                cols,
                t,
                states[i],
                states[i + 1],
            ),
    ensures
        crate::cpu::plane_done(m, states.first().input, w, h, cutoff, states.last().b),
{
    assert(pass_done(m, passes()[0], w, h, rows, cols, t, states[0], states[0int + 1]));
    assert(pass_done(m, passes()[1], w, h, rows, cols, t, states[1], states[1int + 1]));
    assert(pass_done(m, passes()[2], w, h, rows, cols, t, states[2], states[2int + 1]));
    assert(pass_done(m, passes()[3], w, h, rows, cols, t, states[3], states[3int + 1]));
    assert(crate::cpu::plane_steps(
        m,
        states[0].input,
        w,
        h,
        cutoff,
        rows,
        cols,
        t,
        states[1].of(PlaneBuffer::A),
        states[2].of(PlaneBuffer::B),
        states[3].of(PlaneBuffer::A),
        states[4].of(PlaneBuffer::B),
    ));
}

/// The parameter block of a pass, as words: the frame size, the threshold's bit
/// pattern, the two switches, and padding to a multiple of 16 bytes.
pub open spec fn pass_words(
    width: u32,
    height: u32,
    threshold_bits: u32,
    apply_mask: bool,
    clamp_output: bool,
) -> Seq<u32> {
    seq![
        width,
        height,
        threshold_bits,
        if apply_mask {
            1u32
        } else {
            0
        },
        if clamp_output {
            1u32
        } else {
            0
        },
        0,
        0,
        0,
    ]
}

/// The parameter block of a pass, in memory order.
pub fn pass_params(
    width: u32,
    height: u32,
    threshold_bits: u32,
    apply_mask: bool,
    clamp_output: bool,
) -> (bytes: Vec<u8>)
    ensures
        ({
            let words = pass_words(width, height, threshold_bits, apply_mask, clamp_output);
            bytes@ == little_endian(words) || bytes@ == big_endian(words)
        }),
{
    let mask: u32 = if apply_mask {
        1
    } else {
        0
    };
    let clamp: u32 = if clamp_output {
        1
    } else {
        0
    };
    let words: [u32; 8] = [width, height, threshold_bits, mask, clamp, 0, 0, 0];
    assert(words@ =~= pass_words(width, height, threshold_bits, apply_mask, clamp_output));
    word_bytes(words.as_slice())
}

/// The radix split an axis takes under an algorithm; `None` is the matrix
/// multiply.
pub open spec fn axis_split(n: nat, algorithm: DctAlgorithm) -> Option<Seq<usize>> {
    match algorithm {
        DctAlgorithm::Fft => crate::fft_plan::fft_split(n),
        DctAlgorithm::Gemm => None,
    }
}

/// How an axis of length `n` is transformed: by an FFT with these factors, or
/// by the matrix multiply where there are none.
pub fn axis_plan(n: u32, algorithm: DctAlgorithm) -> (r: Option<Vec<usize>>)
    ensures
        r is Some <==> axis_split(n as nat, algorithm) is Some,
        r matches Some(f) ==> axis_split(n as nat, algorithm) == Some(f@),
{
    match algorithm {
        DctAlgorithm::Fft => fft_eligible(n as usize),
        DctAlgorithm::Gemm => None,
    }
}

/// How the two axes of a frame are transformed, one by one.
pub struct AxisPlans {
    pub rows: Option<Vec<usize>>,
    pub cols: Option<Vec<usize>>,
}

/// The factors that a plan names, as a sequence.
pub open spec fn factors_of(plan: Option<Vec<usize>>) -> Option<Seq<usize>> {
    match plan {
        Some(f) => Some(f@),
        None => None,
    }
}

/// How the axes of a frame are transformed where at least one of them takes an
/// FFT; `None` where neither does: then the four passes serve.
pub fn axis_plans(width: u32, height: u32, algorithm: DctAlgorithm) -> (r: Option<AxisPlans>)
    ensures
        r is None <==> axis_split(width as nat, algorithm) is None && axis_split(
            height as nat,
            algorithm,
        ) is None,
        r matches Some(plans) ==> {
            &&& factors_of(plans.rows) == axis_split(width as nat, algorithm)
            &&& factors_of(plans.cols) == axis_split(height as nat, algorithm)
        },
{
    let rows = axis_plan(width, algorithm);
    let cols = axis_plan(height, algorithm);
    if rows.is_none() && cols.is_none() {
        None
    } else {
        Some(AxisPlans { rows, cols })
    }
}

/// How many frames may be in flight, and how many color planes each has.
pub const FRAME_SLOTS: usize = 2;

/// The color planes of a frame.
pub const CHANNELS: usize = 3;

/// The buffer set of a color plane of the frame in a slot.
pub fn buffer_set(call: SlotCall, frame_slot: usize, channel: usize) -> (res: Result<
    usize,
    TransformError,
>)
    requires
        channel < CHANNELS,
    ensures
        match res {
            Ok(set) => frame_slot < FRAME_SLOTS && set == frame_slot * CHANNELS + channel,
            Err(e) => frame_slot >= FRAME_SLOTS && e == (TransformError::NoSuchSlot {
                call,
                slot: frame_slot,
            }),
        },
{
    if frame_slot >= FRAME_SLOTS {
        return Err(TransformError::NoSuchSlot { call, slot: frame_slot });
    }
    Ok(frame_slot * CHANNELS + channel)
}

/// No two planes in flight share a buffer set.
pub proof fn law_buffer_sets_are_disjoint(
    slot: int,
    channel: int,
    other_slot: int,
    other_channel: int,
)
    requires
        0 <= slot < FRAME_SLOTS,
        0 <= other_slot < FRAME_SLOTS,
        0 <= channel < CHANNELS,
        0 <= other_channel < CHANNELS,
        slot * CHANNELS + channel == other_slot * CHANNELS + other_channel,
    ensures
        slot == other_slot,
        channel == other_channel,
{
}

/// How waiting for the device ended.
pub enum PollOutcome {
    Done,
    TimedOut,
    Failed(String),
}

/// How long the device is waited for, in seconds. Without a bound, a device
/// that was reset mid-dispatch would be waited for forever.
pub const POLL_TIMEOUT_SECS: u64 = 30;

/// What the end of a wait is reported as.
pub open spec fn poll_error(outcome: PollOutcome) -> Option<Seq<char>> {
    match outcome {
        PollOutcome::Done => None,
        PollOutcome::TimedOut => Some(
            "GPU did not respond within 30s - likely a driver reset (Windows TDR) from a too-slow DCT dispatch at this resolution; try --backend cpu or a lower resolution"@,
        ),
        PollOutcome::Failed(e) => Some("gpu poll failed: "@ + e@),
    }
}

/// Turns the end of a wait into a result.
pub fn poll_result(outcome: PollOutcome) -> (res: Result<(), TransformError>)
    ensures
        match res {
            Ok(_) => poll_error(outcome) is None,
            Err(e) => e is Device && poll_error(outcome) == Some(e.text()),
        },
{
    match outcome {
        PollOutcome::Done => Ok(()),
        PollOutcome::TimedOut => Err(
            TransformError::Device(
                "GPU did not respond within 30s - likely a driver reset (Windows TDR) from a too-slow DCT dispatch at this resolution; try --backend cpu or a lower resolution".to_owned(),
            ),
        ),
        PollOutcome::Failed(e) => Err(
            TransformError::Device(crate::text::joined("gpu poll failed: ", e.as_str())),
        ),
    }
}

} // verus!
