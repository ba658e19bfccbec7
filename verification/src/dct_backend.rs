//! Choosing what computes the DCT, and what every compute backend offers.
use crate::text::{decimal_text, joined};
use vstd::prelude::*;

verus! {

/// Three color planes of one frame, each row by row.
pub struct RgbPlanes<T> {
    pub r: Vec<T>,
    pub g: Vec<T>,
    pub b: Vec<T>,
}

/// Which half of the two-step pipelining interface a slot was handed to.
#[derive(Debug, Clone, Copy, PartialEq, Eq, Structural)]
pub enum SlotCall {
    Submit,
    Finish,
}

/// Why a compute backend turned a request down.
pub enum TransformError {
    /// A frame without pixels.
    ZeroDimension { width: u32, height: u32 },
    /// A plane whose length is not `width * height`.
    WrongLength { len: usize, expected: u64 },
    /// A basis matrix that the device cannot bind as one buffer.
    BasisTooLarge { width: u32, height: u32, max_binding: u64 },
    /// A frame slot other than the two there are.
    NoSuchSlot { call: SlotCall, slot: usize },
    /// Nothing was submitted to the slot since it was last emptied.
    NothingStashed,
    /// The backend computes whole frames only.
    NotPipelined,
    /// What the device itself reported.
    Device(String),
}

impl TransformError {
    /// The text of the error.
    pub open spec fn text(self) -> Seq<char> {
        match self {
            TransformError::ZeroDimension { width, height } =>
                "process_plane: width and height must both be non-zero (got "@ + crate::text::decimal(
                    width as nat,
                ) + "x"@ + crate::text::decimal(height as nat) + ")"@,
            TransformError::WrongLength { len, expected } =>
                "process_plane: pixel buffer has "@ + crate::text::decimal(len as nat)
                    + " elements, expected width*height = "@ + crate::text::decimal(expected as nat),
            TransformError::BasisTooLarge { width, height, max_binding } => "process_plane: "@
                + crate::text::decimal(width as nat) + "x"@ + crate::text::decimal(height as nat)
                + " frame needs a basis buffer larger than this GPU allows ("@
                + crate::text::decimal(max_binding as nat)
                + " bytes max); try a lower resolution"@,
            TransformError::NoSuchSlot { call, slot } => slot_call_name(call)
                + ": frame_slot must be 0 or 1 (got "@ + crate::text::decimal(slot as nat) + ")"@,
            TransformError::NothingStashed =>
                "finish_rgb: no result stashed for this frame_slot - submit_rgb must be called first"@,
            TransformError::NotPipelined =>
                "finish_rgb: this DctBackend doesn't implement submit_rgb/finish_rgb pipelining"@,
            TransformError::Device(message) => message@,
        }
    }

    /// The text of the error.
    pub fn message(&self) -> (r: String)
        ensures
            r@ == self.text(),
    {
        match self {
            TransformError::ZeroDimension { width, height } => {
                let mut r =
                    "process_plane: width and height must both be non-zero (got ".to_owned();
                r.append(decimal_text(*width as u64).as_str());
                r.append("x");
                r.append(decimal_text(*height as u64).as_str());
                r.append(")");
                r
            },
            TransformError::WrongLength { len, expected } => {
                let mut r = "process_plane: pixel buffer has ".to_owned();
                r.append(decimal_text(*len as u64).as_str());
                r.append(" elements, expected width*height = ");
                r.append(decimal_text(*expected).as_str());
                r
            },
            TransformError::BasisTooLarge { width, height, max_binding } => {
                let mut r = "process_plane: ".to_owned();
                r.append(decimal_text(*width as u64).as_str());
                r.append("x");
                r.append(decimal_text(*height as u64).as_str());
                r.append(" frame needs a basis buffer larger than this GPU allows (");
                r.append(decimal_text(*max_binding).as_str());
                r.append(" bytes max); try a lower resolution");
                r
            },
            TransformError::NoSuchSlot { call, slot } => {
                let mut r = match call {
                    SlotCall::Submit => "submit_rgb".to_owned(),
                    SlotCall::Finish => "finish_rgb".to_owned(),
                };
                r.append(": frame_slot must be 0 or 1 (got ");
                r.append(decimal_text(*slot as u64).as_str());
                r.append(")");
                r
            },
            TransformError::NothingStashed =>
                "finish_rgb: no result stashed for this frame_slot - submit_rgb must be called first".to_owned(),
            TransformError::NotPipelined =>
                "finish_rgb: this DctBackend doesn't implement submit_rgb/finish_rgb pipelining".to_owned(),
            TransformError::Device(message) => message.clone(),
        }
    }
}

/// The name of the call a slot was handed to.
pub open spec fn slot_call_name(call: SlotCall) -> Seq<char> {
    match call {
        SlotCall::Submit => "submit_rgb"@,
        SlotCall::Finish => "finish_rgb"@,
    }
}

/// One whole-frame separable DCT-II compute implementation. A backend moves
/// into the thread that feeds it, so it is `Send`.
pub trait DctBackend: Send {
    /// One sample of a color plane.
    type Sample;

    /// The normalized diagonal frequency cutoff.
    type Cutoff;

    /// Transforms the three planes of one frame.
    fn process_rgb(
        &mut self,
        r: &[Self::Sample],
        g: &[Self::Sample],
        b: &[Self::Sample],
        width: u32,
        height: u32,
        cutoff: Self::Cutoff,
    ) -> Result<RgbPlanes<Self::Sample>, TransformError>
        requires
            rgb_error(r@.len(), g@.len(), b@.len(), width, height) is None ==> basis_fits(
                width,
                height,
            ),
    ;

    /// Hands one frame to `frame_slot` (0 or 1) without waiting for its result,
    /// which a later `finish_rgb` on the same slot takes. A backend that leaves
    /// this as it is accepts every frame and forgets it; its `finish_rgb` then
    /// fails.
    fn submit_rgb(
        &mut self,
        _frame_slot: usize,
        _r: &[Self::Sample],
        _g: &[Self::Sample],
        _b: &[Self::Sample],
        width: u32,
        height: u32,
        _cutoff: Self::Cutoff,
    ) -> (res: Result<(), TransformError>)
        requires
            rgb_error(_r@.len(), _g@.len(), _b@.len(), width, height) is None ==> basis_fits(
                width,
                height,
            ),
        default_ensures
            res is Ok,
    {
        Ok(())
    }

    /// Takes the result of an earlier `submit_rgb` for `frame_slot`. There is no
    /// state to fall back on here, so a backend that leaves this as it is fails.
    fn finish_rgb(&mut self, _frame_slot: usize) -> (res: Result<
        RgbPlanes<Self::Sample>,
        TransformError,
    >)
        default_ensures
            res == Err::<RgbPlanes<Self::Sample>, TransformError>(TransformError::NotPipelined),
    {
        Err(TransformError::NotPipelined)
    }
}

/// Whether the square basis matrices of both axes, and the frame itself, can be
/// indexed at all.
pub open spec fn basis_fits(width: u32, height: u32) -> bool {
    &&& width * width <= usize::MAX
    &&& height * height <= usize::MAX
    &&& width * height <= usize::MAX
}

/// Why a plane of `len` samples is turned down, if it is.
pub open spec fn plane_error(len: nat, width: u32, height: u32) -> Option<TransformError> {
    if width == 0 || height == 0 {
        Some(TransformError::ZeroDimension { width, height })
    } else if len != width * height {
        Some(TransformError::WrongLength { len: len as usize, expected: (width * height) as u64 })
    } else {
        None
    }
}

/// Why three planes are turned down, if they are: what the first bad one gives.
pub open spec fn rgb_error(
    r: nat,
    g: nat,
    b: nat,
    width: u32,
    height: u32,
) -> Option<TransformError> {
    if plane_error(r, width, height) is Some {
        plane_error(r, width, height)
    } else if plane_error(g, width, height) is Some {
        plane_error(g, width, height)
    } else {
        plane_error(b, width, height)
    }
}

/// Checks the length of a plane.
pub(crate) fn check_length(len: usize, width: u32, height: u32) -> (res: Result<
    (),
    TransformError,
>)
    ensures
        match res {
            Ok(_) => plane_error(len as nat, width, height) is None,
            Err(e) => plane_error(len as nat, width, height) == Some(e),
        },
{
    if width == 0 || height == 0 {
        return Err(TransformError::ZeroDimension { width, height });
    }
    assert(width * height <= u64::MAX) by (nonlinear_arith)
        requires
            width <= u32::MAX,
            height <= u32::MAX,
    ;
    let expected: u64 = width as u64 * height as u64;
    if len as u64 != expected {
        return Err(TransformError::WrongLength { len, expected });
    }
    Ok(())
}

/// Checks the lengths of the three planes of a frame.
pub(crate) fn check_lengths(
    r: usize,
    g: usize,
    b: usize,
    width: u32,
    height: u32,
) -> (res: Result<(), TransformError>)
    ensures
        match res {
            Ok(_) => rgb_error(r as nat, g as nat, b as nat, width, height) is None,
            Err(e) => rgb_error(r as nat, g as nat, b as nat, width, height) == Some(e),
        },
{
    match check_length(r, width, height) {
        Ok(()) => {},
        Err(e) => return Err(e),
    }
    match check_length(g, width, height) {
        Ok(()) => {},
        Err(e) => return Err(e),
    }
    check_length(b, width, height)
}

/// Whether a frame may be handed to a backend: its planes are turned down
/// anyway, or its basis matrices can be indexed.
pub fn frame_fits(r: usize, g: usize, b: usize, width: u32, height: u32) -> (ok: bool)
    ensures
        ok == (rgb_error(r as nat, g as nat, b as nat, width, height) is None ==> basis_fits(
            width,
            height,
        )),
{
    let (w, h): (u64, u64) = (width as u64, height as u64);
    assert(w * w <= u64::MAX && h * h <= u64::MAX && w * h <= u64::MAX) by (nonlinear_arith)
        requires
            w <= u32::MAX,
            h <= u32::MAX,
    ;
    let most: u64 = usize::MAX as u64;
    check_lengths(r, g, b, width, height).is_err() || (w * w <= most && h * h <= most && w * h
        <= most)
}

/// User-selectable DCT compute backend: GPU (needs a compatible adapter) or CPU
/// (always available).
#[derive(Debug, Clone, Copy, PartialEq, Eq, Structural)]
pub enum ComputeBackend {
    Gpu,
    Cpu,
}

impl ComputeBackend {
    /// Every backend, in the order a picker lists them.
    pub const ALL: [ComputeBackend; 2] = [ComputeBackend::Gpu, ComputeBackend::Cpu];

    /// The name shown to the user.
    pub open spec fn name(self) -> Seq<char> {
        match self {
            ComputeBackend::Gpu => "GPU (wgpu compute)"@,
            ComputeBackend::Cpu => "CPU (software, no GPU required)"@,
        }
    }

    /// The name shown to the user.
    pub fn label(&self) -> (r: &'static str)
        ensures
            r@ == self.name(),
    {
        match self {
            ComputeBackend::Gpu => "GPU (wgpu compute)",
            ComputeBackend::Cpu => "CPU (software, no GPU required)",
        }
    }

    /// Resolves the choice into a concrete backend. Building the GPU backend can
    /// fail (no compatible adapter); building the CPU one never does. Only the
    /// chosen one is built.
    pub fn build<B, G: FnOnce() -> Result<B, String>, C: FnOnce() -> B>(
        &self,
        gpu: G,
        cpu: C,
    ) -> (res: Result<B, String>)
        requires
            call_requires(gpu, ()),
            call_requires(cpu, ()),
        ensures
            *self == ComputeBackend::Cpu ==> res is Ok && call_ensures(cpu, (), res->Ok_0),
            *self == ComputeBackend::Gpu ==> match res {
                Ok(backend) => call_ensures(gpu, (), Ok::<B, String>(backend)),
                Err(message) => exists|e: String|
                    call_ensures(gpu, (), Err::<B, String>(e)) && message@ == #[trigger] (
                    "GPU init failed: "@ + e@),
            },
    {
        match self {
            ComputeBackend::Gpu => match gpu() {
                Ok(backend) => Ok(backend),
                Err(e) => Err(joined("GPU init failed: ", e.as_str())),
            },
            ComputeBackend::Cpu => Ok(cpu()),
        }
    }
}

/// How the GPU backend transforms an axis: by an FFT in `O(N log N)` where the
/// axis length allows it, or always by the `O(N^2)` matrix multiply.
#[derive(Debug, Clone, Copy, PartialEq, Eq, Structural)]
pub enum DctAlgorithm {
    Fft,
    Gemm,
}

impl DctAlgorithm {
    /// Every algorithm, in the order a picker lists them.
    pub const ALL: [DctAlgorithm; 2] = [DctAlgorithm::Fft, DctAlgorithm::Gemm];

    /// The name shown to the user.
    pub open spec fn name(self) -> Seq<char> {
        match self {
            DctAlgorithm::Fft => "FFT"@,
            DctAlgorithm::Gemm => "matrix multiply"@,
        }
    }

    /// The name shown to the user.
    pub fn label(&self) -> (r: &'static str)
        ensures
            r@ == self.name(),
    {
        match self {
            DctAlgorithm::Fft => "FFT",
            DctAlgorithm::Gemm => "matrix multiply",
        }
    }
}

} // verus!
