//! The output codecs a user can pick.
use vstd::prelude::*;

verus! {

/// Which video codec to encode into, and whether to prefer a hardware encoder.
/// Backend-agnostic: each media backend maps a `Codec` onto whatever it needs
/// internally.
#[derive(Debug, Clone, Copy, PartialEq, Eq, Structural)]
pub enum Codec {
    H264,
    H264Hardware,
    H265,
    H265Hardware,
    Vp9,
    Vp9Hardware,
    Av1,
    Av1Hardware,
}

impl Codec {
    /// Every codec, in the order a picker lists them.
    pub const ALL: [Codec; 8] = [
        Codec::H264,
        Codec::H264Hardware,
        Codec::H265,
        Codec::H265Hardware,
        Codec::Vp9,
        Codec::Vp9Hardware,
        Codec::Av1,
        Codec::Av1Hardware,
    ];

    /// The codec without its hardware preference.
    pub open spec fn software(self) -> Codec {
        match self {
            Codec::H264 | Codec::H264Hardware => Codec::H264,
            Codec::H265 | Codec::H265Hardware => Codec::H265,
            Codec::Vp9 | Codec::Vp9Hardware => Codec::Vp9,
            Codec::Av1 | Codec::Av1Hardware => Codec::Av1,
        }
    }

    /// Whether the codec asks for a hardware encoder.
    pub open spec fn hardware(self) -> bool {
        self != self.software()
    }

    /// The name shown to the user.
    pub open spec fn name(self) -> Seq<char> {
        match self {
            Codec::H264 => "H.264"@,
            Codec::H264Hardware => "H.264 (hardware)"@,
            Codec::H265 => "H.265 / HEVC"@,
            Codec::H265Hardware => "H.265 / HEVC (hardware)"@,
            Codec::Vp9 => "VP9"@,
            Codec::Vp9Hardware => "VP9 (hardware)"@,
            Codec::Av1 => "AV1"@,
            Codec::Av1Hardware => "AV1 (hardware)"@,
        }
    }

    /// Whether the codec asks for a hardware encoder.
    pub fn is_hardware(self) -> (r: bool)
        ensures
            r == self.hardware(),
    {
        match self {
            Codec::H264 | Codec::H265 | Codec::Vp9 | Codec::Av1 => false,
            Codec::H264Hardware | Codec::H265Hardware | Codec::Vp9Hardware
            | Codec::Av1Hardware => true,
        }
    }

    /// The name shown to the user.
    pub fn label(self) -> (r: &'static str)
        ensures
            r@ == self.name(),
    {
        match self {
            Codec::H264 => "H.264",
            Codec::H264Hardware => "H.264 (hardware)",
            Codec::H265 => "H.265 / HEVC",
            Codec::H265Hardware => "H.265 / HEVC (hardware)",
            Codec::Vp9 => "VP9",
            Codec::Vp9Hardware => "VP9 (hardware)",
            Codec::Av1 => "AV1",
            Codec::Av1Hardware => "AV1 (hardware)",
        }
    }
}

/// The picker offers every codec, and none twice.
pub proof fn law_all_lists_each_codec_once(c: Codec)
    ensures
        exists|i: int| 0 <= i < 8 && #[trigger] Codec::ALL[i] == c,
        forall|i: int, j: int|
            0 <= i < 8 && 0 <= j < 8 && Codec::ALL[i] == c && Codec::ALL[j] == c ==> i == j,
{
    let all = Codec::ALL;
    assert(all[0] == Codec::H264);
    assert(all[1] == Codec::H264Hardware);
    assert(all[2] == Codec::H265);
    assert(all[3] == Codec::H265Hardware);
    assert(all[4] == Codec::Vp9);
    assert(all[5] == Codec::Vp9Hardware);
    assert(all[6] == Codec::Av1);
    assert(all[7] == Codec::Av1Hardware);
}

/// The name of a hardware codec is its software name followed by
/// `" (hardware)"`.
pub proof fn law_hardware_name(c: Codec)
    requires
        c.hardware(),
    ensures
        c.name() == c.software().name() + " (hardware)"@,
{
    reveal_strlit("H.264");
    reveal_strlit("H.264 (hardware)");
    reveal_strlit("H.265 / HEVC");
    reveal_strlit("H.265 / HEVC (hardware)");
    reveal_strlit("VP9");
    reveal_strlit("VP9 (hardware)");
    reveal_strlit("AV1");
    reveal_strlit("AV1 (hardware)");
    reveal_strlit(" (hardware)");
    assert(c.name() =~= c.software().name() + " (hardware)"@);
}

/// No two codecs share a name.
pub proof fn law_names_differ(c: Codec, d: Codec)
    requires
        c != d,
    ensures
        c.name() != d.name(),
{
    reveal_strlit("H.264");
    reveal_strlit("H.264 (hardware)");
    reveal_strlit("H.265 / HEVC");
    reveal_strlit("H.265 / HEVC (hardware)");
    reveal_strlit("VP9");
    reveal_strlit("VP9 (hardware)");
    reveal_strlit("AV1");
    reveal_strlit("AV1 (hardware)");
    if c.name() == d.name() {
        assert(c.name().len() == d.name().len());
        assert(c.name()[0] == d.name()[0]);
    }
}

} // verus!
