//! Which elements a GStreamer encode is made of, how pads are routed, and how
//! frames and bus messages are taken.
use crate::codec::Codec;
use crate::text::{eq_ignore_ascii_case, same_text, starts_with};
use vstd::prelude::*;

verus! {

/// Concrete GStreamer settings of a codec: the encoder's element factory, that
/// element's own properties, and the bitstream parser that goes between it and
/// the muxer, where one is needed.
pub struct EncoderProfile {
    pub element_factory_name: &'static str,
    pub properties: Vec<(&'static str, &'static str)>,
    pub parser: Option<&'static str>,
}

/// The element that encodes a codec.
pub open spec fn element_of(codec: Codec) -> Seq<char> {
    match codec {
        Codec::H264 => "x264enc"@,
        Codec::H265 => "x265enc"@,
        Codec::Vp9 => "vp9enc"@,
        Codec::Av1 => "av1enc"@,
        Codec::H264Hardware => "vah264enc"@,
        Codec::H265Hardware => "vah265enc"@,
        Codec::Vp9Hardware => "vavp9enc"@,
        Codec::Av1Hardware => "vaav1enc"@,
    }
}

/// The properties that keep an encoder from looking ahead: frame in, frame out.
/// Hardware encoders do so by themselves.
pub open spec fn properties_of(codec: Codec) -> Seq<(Seq<char>, Seq<char>)> {
    match codec {
        Codec::H264 | Codec::H265 => seq![("tune"@, "zerolatency"@)],
        Codec::Vp9 => seq![("deadline"@, "1"@), ("lag-in-frames"@, "0"@)],
        Codec::Av1 => seq![("cpu-used"@, "6"@), ("lag-in-frames"@, "0"@)],
        Codec::H264Hardware | Codec::H265Hardware | Codec::Vp9Hardware | Codec::Av1Hardware => seq![],
    }
}

/// The parser of a codec's bitstream.
pub open spec fn parser_of(codec: Codec) -> Option<Seq<char>> {
    match codec {
        Codec::H264 | Codec::H264Hardware => Some("h264parse"@),
        Codec::H265 | Codec::H265Hardware => Some("h265parse"@),
        Codec::Vp9 | Codec::Vp9Hardware | Codec::Av1 | Codec::Av1Hardware => None,
    }
}

impl EncoderProfile {
    /// The properties as text.
    pub open spec fn property_texts(self) -> Seq<(Seq<char>, Seq<char>)> {
        Seq::new(
            self.properties@.len(),
            |i: int| (self.properties@[i].0@, self.properties@[i].1@),
        )
    }

    /// The parser as text.
    pub open spec fn parser_text(self) -> Option<Seq<char>> {
        match self.parser {
            Some(name) => Some(name@),
            None => None,
        }
    }

    /// The profile is that of a codec.
    pub open spec fn is_for(self, codec: Codec) -> bool {
        &&& self.element_factory_name@ == element_of(codec)
        &&& self.property_texts() == properties_of(codec)
        &&& self.parser_text() == parser_of(codec)
    }
}

/// A hardware encoder's profile: it needs no properties.
fn vaapi_profile(element_factory_name: &'static str, parser: Option<&'static str>) -> (p:
    EncoderProfile)
    ensures
        p.element_factory_name == element_factory_name,
        p.properties@.len() == 0,
        p.parser == parser,
{
    EncoderProfile { element_factory_name, properties: Vec::new(), parser }
}

/// A software encoder's profile, with one property.
fn one_property(
    element_factory_name: &'static str,
    first: (&'static str, &'static str),
    parser: Option<&'static str>,
) -> (p: EncoderProfile)
    ensures
        p.element_factory_name == element_factory_name,
        p.properties@ == seq![first],
        p.parser == parser,
{
    let mut properties: Vec<(&'static str, &'static str)> = Vec::new();
    properties.push(first);
    assert(properties@ =~= seq![first]);
    EncoderProfile { element_factory_name, properties, parser }
}

/// A software encoder's profile, with two properties.
fn two_properties(
    element_factory_name: &'static str,
    first: (&'static str, &'static str),
    second: (&'static str, &'static str),
) -> (p: EncoderProfile)
    ensures
        p.element_factory_name == element_factory_name,
        p.properties@ == seq![first, second],
        p.parser is None,
{
    let mut properties: Vec<(&'static str, &'static str)> = Vec::new();
    properties.push(first);
    properties.push(second);
    assert(properties@ =~= seq![first, second]);
    EncoderProfile { element_factory_name, properties, parser: None }
}

/// The GStreamer settings of a codec.
pub fn codec_profile(codec: Codec) -> (p: EncoderProfile)
    ensures
        p.is_for(codec),
{
    let p = match codec {
        Codec::H264 => one_property("x264enc", ("tune", "zerolatency"), Some("h264parse")),
        Codec::H265 => one_property("x265enc", ("tune", "zerolatency"), Some("h265parse")),
        Codec::Vp9 => two_properties("vp9enc", ("deadline", "1"), ("lag-in-frames", "0")),
        Codec::Av1 => two_properties("av1enc", ("cpu-used", "6"), ("lag-in-frames", "0")),
        Codec::H264Hardware => vaapi_profile("vah264enc", Some("h264parse")),
        Codec::H265Hardware => vaapi_profile("vah265enc", Some("h265parse")),
        Codec::Vp9Hardware => vaapi_profile("vavp9enc", None),
        Codec::Av1Hardware => vaapi_profile("vaav1enc", None),
    };
    assert(p.property_texts() =~= properties_of(codec));
    p
}

/// Hardware encoders take no properties, software encoders always do; a parser
/// depends on the format alone.
pub proof fn law_hardware_takes_no_properties(codec: Codec)
    ensures
        codec.hardware() <==> properties_of(codec).len() == 0,
        parser_of(codec) == parser_of(codec.software()),
{
}

/// The elements from the source of transformed frames to the muxer, in order.
pub open spec fn encode_elements(codec: Codec) -> Seq<Seq<char>> {
    match parser_of(codec) {
        Some(parser) => seq![
            "appsrc"@,
            "videoconvert"@,
            element_of(codec),
            parser,
            "queue"@,
        ],
        None => seq!["appsrc"@, "videoconvert"@, element_of(codec), "queue"@],
    }
}

/// The factories of the encode chain, in the order their elements are linked.
pub fn encode_chain(codec: Codec) -> (chain: Vec<&'static str>)
    ensures
        chain@.len() == encode_elements(codec).len(),
        forall|i: int| 0 <= i < chain@.len() ==> #[trigger] chain@[i]@ == encode_elements(codec)[i],
{
    let profile = codec_profile(codec);
    let mut chain: Vec<&'static str> = Vec::new();
    chain.push("appsrc");
    chain.push("videoconvert");
    chain.push(profile.element_factory_name);
    if let Some(parser) = profile.parser {
        chain.push(parser);
    }
    chain.push("queue");
    chain
}

/// What is reported where the encoder element is not installed.
pub fn encoder_missing(name: &str) -> (r: String)
    ensures
        r@ == "encoder '"@ + name@ + "' not available in this GStreamer install"@,
{
    let mut r = "encoder '".to_owned();
    r.append(name);
    r.append("' not available in this GStreamer install");
    r
}

/// What is reported where the parser element is not installed.
pub fn parser_missing(name: &str) -> (r: String)
    ensures
        r@ == "parser '"@ + name@ + "' not available in this GStreamer install"@,
{
    let mut r = "parser '".to_owned();
    r.append(name);
    r.append("' not available in this GStreamer install");
    r
}

/// Whether an output with this extension is an MP4 or QuickTime file.
pub open spec fn mp4_family(extension: Option<Seq<char>>) -> bool {
    extension matches Some(e) && (crate::text::same_ignoring_ascii_case(e, "mp4"@)
        || crate::text::same_ignoring_ascii_case(e, "mov"@))
}

/// The muxer of an output: `qtmux` for `.mp4` and `.mov`, in any case, and
/// `matroskamux` for everything else.
pub fn muxer_for(extension: Option<&str>) -> (r: &'static str)
    ensures
        r@ == (if mp4_family(
            match extension {
                Some(e) => Some(e@),
                None => None,
            },
        ) {
            "qtmux"@
        } else {
            "matroskamux"@
        }),
{
    match extension {
        Some(e) => if eq_ignore_ascii_case(e, "mp4") || eq_ignore_ascii_case(e, "mov") {
            "qtmux"
        } else {
            "matroskamux"
        },
        None => "matroskamux",
    }
}

/// Whether decoding goes on for a stream of this type: video always, audio only
/// where it is raw already. Encoded audio is left as it is.
pub fn autoplug_continue(name: &str) -> (r: bool)
    ensures
        r == (crate::text::begins_with(name@, "audio/"@) ==> name@ == "audio/x-raw"@),
{
    if starts_with(name, "audio/") {
        same_text(name, "audio/x-raw")
    } else {
        true
    }
}

/// Where a decoded pad is linked to.
#[derive(Debug, Clone, Copy, PartialEq, Eq, Structural)]
pub enum PadRoute {
    /// To the transform.
    Video,
    /// To the muxer, byte for byte.
    AudioCopy,
    /// To the muxer by way of an AAC encoder: the muxer cannot write raw audio
    /// in a form that players read.
    AudioReencode,
    /// Nowhere: a second audio stream, or neither video nor audio.
    Unused,
}

/// Where a pad of this type is linked to, `audio_linked` telling whether an
/// audio stream is linked already.
pub open spec fn pad_route(name: Seq<char>, audio_linked: bool) -> PadRoute {
    if crate::text::begins_with(name, "video/x-raw"@) {
        PadRoute::Video
    } else if !crate::text::begins_with(name, "audio/"@) || audio_linked {
        PadRoute::Unused
    } else if name == "audio/x-raw"@ {
        PadRoute::AudioReencode
    } else {
        PadRoute::AudioCopy
    }
}

/// Decides where a new pad is linked to.
pub fn route_pad(name: &str, audio_linked: bool) -> (r: PadRoute)
    ensures
        r == pad_route(name@, audio_linked),
{
    if starts_with(name, "video/x-raw") {
        PadRoute::Video
    } else if !starts_with(name, "audio/") || audio_linked {
        PadRoute::Unused
    } else if same_text(name, "audio/x-raw") {
        PadRoute::AudioReencode
    } else {
        PadRoute::AudioCopy
    }
}

/// At most one audio stream is linked, and video is never turned away.
pub proof fn law_one_audio_stream(name: Seq<char>)
    ensures
        pad_route(name, true) == PadRoute::Video || pad_route(name, true) == PadRoute::Unused,
        crate::text::begins_with(name, "video/x-raw"@) ==> pad_route(name, true) == PadRoute::Video
            && pad_route(name, false) == PadRoute::Video,
{
}

/// Audio that decoding stopped at is copied; only audio that was raw to begin
/// with is encoded anew.
pub proof fn law_encoded_audio_is_copied(name: Seq<char>)
    requires
        crate::text::begins_with(name, "audio/"@),
    ensures
        name != "audio/x-raw"@ ==> pad_route(name, false) == PadRoute::AudioCopy,
        name == "audio/x-raw"@ ==> pad_route(name, false) == PadRoute::AudioReencode,
{
    reveal_strlit("audio/");
    reveal_strlit("video/x-raw");
    assert("audio/"@[0] == 'a' && "video/x-raw"@[0] == 'v');
    if crate::text::begins_with(name, "video/x-raw"@) {
        assert(name.take("video/x-raw"@.len() as int)[0] == name[0]);
        assert(name.take("audio/"@.len() as int)[0] == name[0]);
    }
}

/// Drops the repeat of the first frame: the sink hands it out once while it is
/// paused and once more when it plays.
pub struct PtsFilter {
    last: Option<u64>,
}

/// Whether a frame with this time stamp follows a frame with the stamp `last`
/// as a frame of its own.
pub open spec fn is_new(last: Option<u64>, pts: Option<u64>) -> bool {
    pts is None || last != pts
}

impl PtsFilter {
    /// The time stamp of the last frame let through.
    pub closed spec fn last(self) -> Option<u64> {
        self.last
    }

    /// A filter that has seen nothing.
    pub fn new() -> (f: Self)
        ensures
            f.last() is None,
    {
        PtsFilter { last: None }
    }

    /// Whether a frame is to be forwarded; a frame with the time stamp of the
    /// frame before it is not.
    pub fn accept(&mut self, pts: Option<u64>) -> (r: bool)
        ensures
            r == is_new(old(self).last(), pts),
            final(self).last() == pts,
    {
        let repeat: bool = match (self.last, pts) {
            (Some(a), Some(b)) => a == b,
            _ => false,
        };
        self.last = pts;
        !repeat
    }
}

/// The frames a filter lets through of a run of frames.
pub open spec fn let_through(last: Option<u64>, stamps: Seq<Option<u64>>) -> Seq<Option<u64>>
    decreases stamps.len(),
{
    if stamps.len() == 0 {
        seq![]
    } else if is_new(last, stamps[0]) {
        seq![stamps[0]] + let_through(stamps[0], stamps.drop_first())
    } else {
        let_through(stamps[0], stamps.drop_first())
    }
}

/// A first frame that is handed out twice is forwarded once.
pub proof fn law_first_frame_is_forwarded_once(first: u64, rest: Seq<Option<u64>>)
    ensures
        let_through(None, seq![Some(first), Some(first)] + rest) == seq![Some(first)]
            + let_through(Some(first), rest),
{
    reveal_with_fuel(let_through, 3);
    let all = seq![Some(first), Some(first)] + rest;
    assert(all.drop_first().drop_first() =~= rest);
}

/// Frames of which none repeats the time stamp of the frame before it are all
/// forwarded.
pub proof fn law_distinct_frames_pass(last: Option<u64>, stamps: Seq<Option<u64>>)
    requires
        forall|i: int|
            0 <= i < stamps.len() ==> is_new(
                if i == 0 {
                    last
                } else {
                    stamps[i - 1]
                },
                #[trigger] stamps[i],
            ),
    ensures
        let_through(last, stamps) == stamps,
    decreases stamps.len(),
{
    if stamps.len() > 0 {
        let rest = stamps.drop_first();
        assert(is_new(last, stamps[0]));
        assert forall|i: int| 0 <= i < rest.len() implies is_new(
            if i == 0 {
                stamps[0]
            } else {
                rest[i - 1]
            },
            #[trigger] rest[i],
        ) by {
            assert(rest[i] == stamps[i + 1]);
            if i > 0 {
                assert(rest[i - 1] == stamps[i]);
            }
        }
        law_distinct_frames_pass(stamps[0], rest);
        assert(seq![stamps[0]] + rest =~= stamps);
    } else {
        assert(let_through(last, stamps) =~= stamps);
    }
}

/// A message on the pipeline's bus.
pub enum BusEvent {
    Eos,
    Error { source: String, error: String, debug: String },
    DurationChanged,
    Other,
}

/// What to do about a message.
pub enum BusStep {
    /// Go on reading.
    Continue,
    /// Ask for the duration, now that it may be known, and go on reading.
    QueryDuration,
    /// Stop: the stream is over.
    Stop,
    /// Stop: the pipeline failed.
    Fail(String),
}

/// The text of a pipeline error.
pub open spec fn pipeline_error(
    source: Seq<char>,
    error: Seq<char>,
    debug: Seq<char>,
) -> Seq<char> {
    "pipeline error from "@ + source + ": "@ + error + " ("@ + debug + ")"@
}

/// Decides what to do about a message. The duration is of use only once the
/// frame rate is known.
pub fn bus_step(event: &BusEvent, frame_rate_known: bool) -> (r: BusStep)
    ensures
        match *event {
            BusEvent::Eos => r is Stop,
            BusEvent::Error { source, error, debug } => r matches BusStep::Fail(text) && text@
                == pipeline_error(source@, error@, debug@),
            BusEvent::DurationChanged => if frame_rate_known {
                r is QueryDuration
            } else {
                r is Continue
            },
            BusEvent::Other => r is Continue,
        },
{
    match event {
        BusEvent::Eos => BusStep::Stop,
        BusEvent::Error { source, error, debug } => {
            let mut text = "pipeline error from ".to_owned();
            text.append(source.as_str());
            text.append(": ");
            text.append(error.as_str());
            text.append(" (");
            text.append(debug.as_str());
            text.append(")");
            BusStep::Fail(text)
        },
        BusEvent::DurationChanged => if frame_rate_known {
            BusStep::QueryDuration
        } else {
            BusStep::Continue
        },
        BusEvent::Other => BusStep::Continue,
    }
}

} // verus!
