//! What the choices a user makes stand for, and what is said about frames that
//! are turned down.
use crate::codec::Codec;
use crate::dct_backend::{ComputeBackend, DctAlgorithm, SlotCall, TransformError};
use crate::encoders::{EncoderChoice, EncoderProfile};
use crate::media_backend::MediaBackendChoice;
use vstd::prelude::*;

verus! {

/// What the name of a codec starts with: the name of its format.
pub open spec fn format_name(codec: Codec) -> Seq<char> {
    if codec is H264 || codec is H264Hardware {
        "H.264"@
    } else if codec is H265 || codec is H265Hardware {
        "H.265 / HEVC"@
    } else if codec is Vp9 || codec is Vp9Hardware {
        "VP9"@
    } else {
        "AV1"@
    }
}

/// A codec is shown as its format, with `(hardware)` behind it exactly if it asks
/// for a hardware encoder; and leaving that preference out keeps the format.
pub proof fn law_codec_is_shown_as_it_is(codec: Codec, hardware: bool, label: &'static str)
    requires
        call_ensures(Codec::is_hardware, (codec,), hardware),
        call_ensures(Codec::label, (codec,), label),
    ensures
        hardware <==> codec is H264Hardware || codec is H265Hardware || codec is Vp9Hardware
            || codec is Av1Hardware,
        label@ == (if hardware {
            format_name(codec) + " (hardware)"@
        } else {
            format_name(codec)
        }),
        !codec.software().hardware(),
        format_name(codec.software()) == format_name(codec),
        !hardware ==> codec.software() == codec,
{
    if codec.hardware() {
        crate::codec::law_hardware_name(codec);
    }
}

/// A picker lists each format's software codec and, right behind it, its hardware
/// codec; and the encoders in the same order of formats.
pub proof fn law_pickers_list_formats_in_order(i: int)
    requires
        0 <= i < 4,
    ensures
        Codec::ALL@.len() == 8,
        EncoderChoice::ALL@.len() == 4,
        !Codec::ALL@[2 * i].hardware(),
        Codec::ALL@[2 * i + 1].hardware(),
        Codec::ALL@[2 * i + 1].software() == Codec::ALL@[2 * i],
        Codec::ALL@[0] is H264,
        Codec::ALL@[2] is H265,
        Codec::ALL@[4] is Vp9,
        Codec::ALL@[6] is Av1,
        EncoderChoice::ALL@[0] is H264,
        EncoderChoice::ALL@[1] is H265,
        EncoderChoice::ALL@[2] is Vp9,
        EncoderChoice::ALL@[3] is Av1,
{
    let all = Codec::ALL@;
    assert(all[0] == Codec::H264 && all[1] == Codec::H264Hardware);
    assert(all[2] == Codec::H265 && all[3] == Codec::H265Hardware);
    assert(all[4] == Codec::Vp9 && all[5] == Codec::Vp9Hardware);
    assert(all[6] == Codec::Av1 && all[7] == Codec::Av1Hardware);
}

/// The encoder that runs is the one the choice is named after: the format first,
/// then the encoder in brackets.
pub proof fn law_encoder_is_the_one_shown(
    choice: &EncoderChoice,
    label: &'static str,
    profile: EncoderProfile,
)
    requires
        call_ensures(EncoderChoice::label, (choice,), label),
        call_ensures(EncoderChoice::profile, (choice,), profile),
    ensures
        ({
            let format = match *choice {
                EncoderChoice::H264 => "H.264"@,
                EncoderChoice::H265 => "H.265 / HEVC"@,
                EncoderChoice::Vp9 => "VP9"@,
                EncoderChoice::Av1 => "AV1"@,
            };
            label@ == format + " ("@ + profile.codec_name@ + ")"@
        }),
        *choice is H264 <==> profile.codec_name@ == "libx264"@,
        *choice is H265 <==> profile.codec_name@ == "libx265"@,
        *choice is Vp9 <==> profile.codec_name@ == "libvpx-vp9"@,
        *choice is Av1 <==> profile.codec_name@ == "libaom-av1"@,
        profile.pixel_format is Yuv420p,
{
    reveal_strlit(" (");
    reveal_strlit(")");
    reveal_strlit("libx264");
    reveal_strlit("libx265");
    reveal_strlit("libvpx-vp9");
    reveal_strlit("libaom-av1");
    reveal_strlit("H.264");
    reveal_strlit("H.265 / HEVC");
    reveal_strlit("VP9");
    reveal_strlit("AV1");
    reveal_strlit("H.264 (libx264)");
    reveal_strlit("H.265 / HEVC (libx265)");
    reveal_strlit("VP9 (libvpx-vp9)");
    reveal_strlit("AV1 (libaom-av1)");
    assert("libx264"@[6] == '4' && "libx265"@[6] == '5');
    assert("libvpx-vp9"@[3] == 'v' && "libaom-av1"@[3] == 'a');
    let name = profile.codec_name@;
    match *choice {
        EncoderChoice::H264 => assert(label@ =~= "H.264"@ + " ("@ + name + ")"@),
        EncoderChoice::H265 => assert(label@ =~= "H.265 / HEVC"@ + " ("@ + name + ")"@),
        EncoderChoice::Vp9 => assert(label@ =~= "VP9"@ + " ("@ + name + ")"@),
        EncoderChoice::Av1 => assert(label@ =~= "AV1"@ + " ("@ + name + ")"@),
    }
}

/// The options an encoder is opened with: the two of the x26 family take a preset,
/// the other two a speed, and VP9 a deadline besides.
pub proof fn law_encoder_options(choice: &EncoderChoice, profile: EncoderProfile)
    requires
        call_ensures(EncoderChoice::profile, (choice,), profile),
    ensures
        *choice is H264 || *choice is H265 ==> profile.options@.len() == 1
            && profile.options@[0].0@ == "preset"@ && profile.options@[0].1@ == "medium"@,
        *choice is Vp9 ==> profile.options@.len() == 2 && profile.options@[0].0@ == "deadline"@
            && profile.options@[0].1@ == "good"@ && profile.options@[1].0@ == "cpu-used"@
            && profile.options@[1].1@ == "4"@,
        *choice is Av1 ==> profile.options@.len() == 1 && profile.options@[0].0@ == "cpu-used"@
            && profile.options@[0].1@ == "6"@,
{
    let views = crate::encoders::option_views(profile.options@);
    assert(views.len() == profile.options@.len());
    assert(views == choice.encoder_options());
    if profile.options@.len() > 0 {
        assert(views[0] == (profile.options@[0].0@, profile.options@[0].1@));
    }
    if profile.options@.len() > 1 {
        assert(views[1] == (profile.options@[1].0@, profile.options@[1].1@));
    }
}

/// A platform offers one media backend, Media Foundation on Windows and GStreamer
/// elsewhere, and each is shown under its own name.
pub proof fn law_platform_has_one_media_backend(
    on_windows: bool,
    r: [MediaBackendChoice; 1],
    label: &'static str,
)
    requires
        call_ensures(MediaBackendChoice::all, (on_windows,), r),
        call_ensures(MediaBackendChoice::label, (r@[0],), label),
    ensures
        r@.len() == 1,
        r@[0] is MediaFoundation <==> on_windows,
        label@ == (if on_windows {
            "Media Foundation"@
        } else {
            "GStreamer"@
        }),
{
}

/// Both compute backends and both algorithms are offered, the faster one first,
/// and each is shown under a name that tells it.
pub proof fn law_compute_choices_are_told_apart(
    backend: &ComputeBackend,
    algorithm: &DctAlgorithm,
    backend_label: &'static str,
    algorithm_label: &'static str,
)
    requires
        call_ensures(ComputeBackend::label, (backend,), backend_label),
        call_ensures(DctAlgorithm::label, (algorithm,), algorithm_label),
    ensures
        ComputeBackend::ALL@ == seq![ComputeBackend::Gpu, ComputeBackend::Cpu],
        DctAlgorithm::ALL@ == seq![DctAlgorithm::Fft, DctAlgorithm::Gemm],
        backend_label@ == "GPU (wgpu compute)"@ <==> *backend is Gpu,
        backend_label@ == "CPU (software, no GPU required)"@ <==> *backend is Cpu,
        algorithm_label@ == "FFT"@ <==> *algorithm is Fft,
        algorithm_label@ == "matrix multiply"@ <==> *algorithm is Gemm,
{
    reveal_strlit("GPU (wgpu compute)");
    reveal_strlit("CPU (software, no GPU required)");
    reveal_strlit("FFT");
    reveal_strlit("matrix multiply");
    assert(ComputeBackend::ALL@ =~= seq![ComputeBackend::Gpu, ComputeBackend::Cpu]);
    assert(DctAlgorithm::ALL@ =~= seq![DctAlgorithm::Fft, DctAlgorithm::Gemm]);
    assert("FFT"@.len() == 3 && "matrix multiply"@.len() == 15);
    assert("GPU (wgpu compute)"@[0] == 'G' && "CPU (software, no GPU required)"@[0] == 'C');
}

/// Choosing the CPU never fails, and builds nothing else; choosing the GPU gives
/// what building it gave, a failure behind a few words.
pub proof fn law_only_the_chosen_backend_is_built<
    B,
    G: FnOnce() -> Result<B, String>,
    C: FnOnce() -> B,
>(choice: &ComputeBackend, gpu: G, cpu: C, res: Result<B, String>)
    requires
        call_ensures(ComputeBackend::build::<B, G, C>, (choice, gpu, cpu), res),
    ensures
        *choice is Cpu ==> res is Ok,
        res matches Ok(backend) ==> if *choice is Cpu {
            call_ensures(cpu, (), backend)
        } else {
            call_ensures(gpu, (), Ok::<B, String>(backend))
        },
        res matches Err(text) ==> *choice is Gpu && exists|e: String|
            call_ensures(gpu, (), Err::<B, String>(e)) && text@ == #[trigger] (
            "GPU init failed: "@ + e@),
{
}

/// The call that hands a frame over, or the one that takes it back.
pub open spec fn half_name(call: SlotCall) -> Seq<char> {
    if call is Submit {
        "submit_rgb"@
    } else {
        "finish_rgb"@
    }
}

/// A text between a head and a tail.
pub open spec fn between(text: Seq<char>, head: Seq<char>, middle: Seq<char>, tail: Seq<char>) -> bool {
    text == head + middle + tail
}

/// What is said of a frame that is turned down names the numbers that are wrong
/// with it, in decimal.
pub proof fn law_refusals_name_their_numbers(e: &TransformError, text: String)
    requires
        call_ensures(TransformError::message, (e,), text),
    ensures
        *e matches TransformError::ZeroDimension { width, height } ==> exists|
            w: Seq<char>,
            h: Seq<char>,
        |
            {
                &&& crate::text_laws::read_decimal(w) == width
                &&& crate::text_laws::read_decimal(h) == height
                &&& #[trigger] between(
                    text@,
                    "process_plane: width and height must both be non-zero (got "@,
                    w + "x"@ + h,
                    ")"@,
                )
            },
        *e matches TransformError::WrongLength { len, expected } ==> exists|
            l: Seq<char>,
            x: Seq<char>,
        |
            {
                &&& crate::text_laws::read_decimal(l) == len
                &&& crate::text_laws::read_decimal(x) == expected
                &&& #[trigger] between(
                    text@,
                    "process_plane: pixel buffer has "@,
                    l,
                    " elements, expected width*height = "@ + x,
                )
            },
        *e matches TransformError::BasisTooLarge { width, height, max_binding } ==> exists|
            w: Seq<char>,
            h: Seq<char>,
            most: Seq<char>,
        |
            {
                &&& crate::text_laws::read_decimal(w) == width
                &&& crate::text_laws::read_decimal(h) == height
                &&& crate::text_laws::read_decimal(most) == max_binding
                &&& #[trigger] between(
                    text@,
                    "process_plane: "@ + w + "x"@ + h,
                    " frame needs a basis buffer larger than this GPU allows ("@ + most,
                    " bytes max); try a lower resolution"@,
                )
            },
        *e matches TransformError::NoSuchSlot { call, slot } ==> exists|s: Seq<char>|
            {
                &&& crate::text_laws::read_decimal(s) == slot
                &&& #[trigger] between(
                    text@,
                    half_name(call) + ": frame_slot must be 0 or 1 (got "@,
                    s,
                    ")"@,
                )
            },
        *e matches TransformError::Device(message) ==> text@ == message@,
        *e is NothingStashed ==> text@
            == "finish_rgb: no result stashed for this frame_slot - submit_rgb must be called first"@,
        *e is NotPipelined ==> text@
            == "finish_rgb: this DctBackend doesn't implement submit_rgb/finish_rgb pipelining"@,
{
    match *e {
        TransformError::ZeroDimension { width, height } => {
            let (w, h) = (crate::text::decimal(width as nat), crate::text::decimal(height as nat));
            crate::text_laws::law_decimal_reads_back(width as nat);
            crate::text_laws::law_decimal_reads_back(height as nat);
            let head = "process_plane: width and height must both be non-zero (got "@;
            assert(text@ =~= head + (w + "x"@ + h) + ")"@);
            assert(between(text@, head, w + "x"@ + h, ")"@));
        },
        TransformError::WrongLength { len, expected } => {
            let (l, x) = (crate::text::decimal(len as nat), crate::text::decimal(expected as nat));
            crate::text_laws::law_decimal_reads_back(len as nat);
            crate::text_laws::law_decimal_reads_back(expected as nat);
            let (head, mid) = (
                "process_plane: pixel buffer has "@,
                " elements, expected width*height = "@,
            );
            assert(text@ =~= head + l + (mid + x));
            assert(between(text@, head, l, mid + x));
        },
        TransformError::BasisTooLarge { width, height, max_binding } => {
            let (w, h) = (crate::text::decimal(width as nat), crate::text::decimal(height as nat));
            let most = crate::text::decimal(max_binding as nat);
            crate::text_laws::law_decimal_reads_back(width as nat);
            crate::text_laws::law_decimal_reads_back(height as nat);
            crate::text_laws::law_decimal_reads_back(max_binding as nat);
            let head = "process_plane: "@ + w + "x"@ + h;
            let mid = " frame needs a basis buffer larger than this GPU allows ("@ + most;
            let tail = " bytes max); try a lower resolution"@;
            assert(text@ =~= head + mid + tail);
            assert(between(text@, head, mid, tail));
        },
        TransformError::NoSuchSlot { call, slot } => {
            let s = crate::text::decimal(slot as nat);
            crate::text_laws::law_decimal_reads_back(slot as nat);
            let head = half_name(call) + ": frame_slot must be 0 or 1 (got "@;
            assert(text@ =~= head + s + ")"@);
            assert(between(text@, head, s, ")"@));
        },
        _ => {},
    }
}

/// A frame may be handed over exactly if it will be turned down anyway, or if the
/// square matrices of both its axes, and itself, can be indexed.
pub proof fn law_frames_fit_or_are_turned_down(
    r: usize,
    g: usize,
    b: usize,
    width: u32,
    height: u32,
    ok: bool,
)
    requires
        call_ensures(crate::dct_backend::frame_fits, (r, g, b, width, height), ok),
    ensures
        ok <==> {
            ||| width == 0 || height == 0
            ||| r != width * height || g != width * height || b != width * height
            ||| width * width <= usize::MAX && height * height <= usize::MAX && width * height
                <= usize::MAX
        },
{
}

} // verus!
