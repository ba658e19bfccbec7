//! The libav encoder settings behind each output encoder.
use vstd::prelude::*;

verus! {

/// The pixel format an encoder is fed.
#[derive(Debug, Clone, Copy, PartialEq, Eq, Structural)]
pub enum PixelFormat {
    Yuv420p,
}

/// Concrete per-encoder settings: the libav encoder name to look up (by name,
/// not by codec, since several codecs have more than one libav encoder), the
/// pixel format it encodes from, and the dictionary options that encoder
/// itself understands. Different encoders take entirely different option keys,
/// so selecting an encoder is more than a codec swap.
pub struct EncoderProfile {
    pub codec_name: &'static str,
    pub pixel_format: PixelFormat,
    pub options: Vec<(&'static str, &'static str)>,
}

/// User-selectable output video encoder.
#[derive(Debug, Clone, Copy, PartialEq, Eq, Structural)]
pub enum EncoderChoice {
    H264,
    H265,
    Vp9,
    Av1,
}

impl EncoderChoice {
    /// Every encoder, in the order a picker lists them.
    pub const ALL: [EncoderChoice; 4] = [
        EncoderChoice::H264,
        EncoderChoice::H265,
        EncoderChoice::Vp9,
        EncoderChoice::Av1,
    ];

    /// The libav name of the encoder.
    pub open spec fn libav_name(self) -> Seq<char> {
        match self {
            EncoderChoice::H264 => "libx264"@,
            EncoderChoice::H265 => "libx265"@,
            EncoderChoice::Vp9 => "libvpx-vp9"@,
            EncoderChoice::Av1 => "libaom-av1"@,
        }
    }

    /// The name shown to the user.
    pub open spec fn name(self) -> Seq<char> {
        match self {
            EncoderChoice::H264 => "H.264 (libx264)"@,
            EncoderChoice::H265 => "H.265 / HEVC (libx265)"@,
            EncoderChoice::Vp9 => "VP9 (libvpx-vp9)"@,
            EncoderChoice::Av1 => "AV1 (libaom-av1)"@,
        }
    }

    /// The encoder's own options, key and value.
    pub open spec fn encoder_options(self) -> Seq<(Seq<char>, Seq<char>)> {
        match self {
            EncoderChoice::H264 | EncoderChoice::H265 => seq![("preset"@, "medium"@)],
            EncoderChoice::Vp9 => seq![("deadline"@, "good"@), ("cpu-used"@, "4"@)],
            EncoderChoice::Av1 => seq![("cpu-used"@, "6"@)],
        }
    }

    /// The name shown to the user.
    pub fn label(&self) -> (r: &'static str)
        ensures
            r@ == self.name(),
    {
        match self {
            EncoderChoice::H264 => "H.264 (libx264)",
            EncoderChoice::H265 => "H.265 / HEVC (libx265)",
            EncoderChoice::Vp9 => "VP9 (libvpx-vp9)",
            EncoderChoice::Av1 => "AV1 (libaom-av1)",
        }
    }

    /// The settings the encoder is opened with.
    pub fn profile(&self) -> (r: EncoderProfile)
        ensures
            r.codec_name@ == self.libav_name(),
            r.pixel_format == PixelFormat::Yuv420p,
            option_views(r.options@) == self.encoder_options(),
    {
        let (codec_name, options) = match self {
            EncoderChoice::H264 => ("libx264", vec![("preset", "medium")]),
            EncoderChoice::H265 => ("libx265", vec![("preset", "medium")]),
            EncoderChoice::Vp9 => ("libvpx-vp9", vec![("deadline", "good"), ("cpu-used", "4")]),
            EncoderChoice::Av1 => ("libaom-av1", vec![("cpu-used", "6")]),
        };
        assert(option_views(options@) =~= self.encoder_options());
        EncoderProfile { codec_name, pixel_format: PixelFormat::Yuv420p, options }
    }
}

/// A list of key/value options as text.
pub open spec fn option_views(options: Seq<(&'static str, &'static str)>) -> Seq<(Seq<char>, Seq<char>)> {
    options.map_values(|o: (&'static str, &'static str)| (o.0@, o.1@))
}

/// The picker offers every encoder, and none twice.
pub proof fn law_all_lists_each_encoder_once(c: EncoderChoice)
    ensures
        exists|i: int| 0 <= i < 4 && #[trigger] EncoderChoice::ALL[i] == c,
        forall|i: int, j: int|
            0 <= i < 4 && 0 <= j < 4 && EncoderChoice::ALL[i] == c && EncoderChoice::ALL[j] == c
                ==> i == j,
{
    let all = EncoderChoice::ALL;
    assert(all[0] == EncoderChoice::H264);
    assert(all[1] == EncoderChoice::H265);
    assert(all[2] == EncoderChoice::Vp9);
    assert(all[3] == EncoderChoice::Av1);
}

/// The name a user sees ends in the libav encoder that will run, in brackets.
pub proof fn law_name_tells_the_libav_encoder(c: EncoderChoice)
    ensures
        exists|codec: Seq<char>|
            c.name() == #[trigger] (codec + " ("@ + c.libav_name() + ")"@),
{
    reveal_strlit(" (");
    reveal_strlit(")");
    reveal_strlit("libx264");
    reveal_strlit("libx265");
    reveal_strlit("libvpx-vp9");
    reveal_strlit("libaom-av1");
    reveal_strlit("H.264 (libx264)");
    reveal_strlit("H.265 / HEVC (libx265)");
    reveal_strlit("VP9 (libvpx-vp9)");
    reveal_strlit("AV1 (libaom-av1)");
    let codec = c.name().take(c.name().len() - c.libav_name().len() - 3);
    assert(c.name() =~= codec + " ("@ + c.libav_name() + ")"@);
}

} // verus!
