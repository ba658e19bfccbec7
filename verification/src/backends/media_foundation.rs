//! How Media Foundation is asked for a codec, how samples are routed, and how
//! the three worker threads' results are taken.
use crate::codec::Codec;
use crate::text::push_decimal;
use vstd::prelude::*;

verus! {

/// A video format that Media Foundation can be asked to encode into.
#[derive(Debug, Clone, Copy, PartialEq, Eq, Structural)]
pub enum VideoSubtype {
    H264,
    Hevc,
    Vp90,
    Av1,
}

/// What a codec asks of Media Foundation: the format, and whether a hardware
/// encoder may serve.
#[derive(Debug, Clone, Copy, PartialEq, Eq, Structural)]
pub struct CodecTarget {
    pub subtype: VideoSubtype,
    pub hardware: bool,
}

/// The format of a codec.
pub open spec fn subtype_of(codec: Codec) -> VideoSubtype {
    match codec {
        Codec::H264 | Codec::H264Hardware => VideoSubtype::H264,
        Codec::H265 | Codec::H265Hardware => VideoSubtype::Hevc,
        Codec::Vp9 | Codec::Vp9Hardware => VideoSubtype::Vp90,
        Codec::Av1 | Codec::Av1Hardware => VideoSubtype::Av1,
    }
}

/// What a codec asks of Media Foundation.
pub fn codec_target(codec: Codec) -> (t: CodecTarget)
    ensures
        t.subtype == subtype_of(codec),
        t.hardware == codec.hardware(),
{
    let subtype = match codec {
        Codec::H264 | Codec::H264Hardware => VideoSubtype::H264,
        Codec::H265 | Codec::H265Hardware => VideoSubtype::Hevc,
        Codec::Vp9 | Codec::Vp9Hardware => VideoSubtype::Vp90,
        Codec::Av1 | Codec::Av1Hardware => VideoSubtype::Av1,
    };
    CodecTarget { subtype, hardware: codec.is_hardware() }
}

/// Format and hardware tell a codec.
pub proof fn law_target_tells_the_codec(a: Codec, b: Codec)
    requires
        subtype_of(a) == subtype_of(b),
        a.hardware() == b.hardware(),
    ensures
        a == b,
{
}

/// The high half of a packed pair.
pub open spec fn high_half(packed: u64) -> u32 {
    (packed / 0x1_0000_0000) as u32
}

/// The low half of a packed pair.
pub open spec fn low_half(packed: u64) -> u32 {
    (packed % 0x1_0000_0000) as u32
}

/// The frame size that a packed pair holds: width in the high half, height in
/// the low one.
pub fn unpack_size(packed: u64) -> (r: (u32, u32))
    ensures
        r.0 == high_half(packed),
        r.1 == low_half(packed),
        r.0 * 0x1_0000_0000 + r.1 == packed,
{
    ((packed / 0x1_0000_0000) as u32, (packed % 0x1_0000_0000) as u32)
}

/// The frame rate that is taken where the input names none: 30 frames a second.
pub const DEFAULT_FRAME_RATE: u64 = 0x1E_0000_0001;

/// The frame rate that a packed pair holds: a numerator, and a denominator that
/// counts as 1 where it is 0.
pub fn unpack_rate(packed: u64) -> (r: (u32, u32))
    ensures
        r.0 == high_half(packed),
        r.1 == (if low_half(packed) == 0 {
            1
        } else {
            low_half(packed)
        }),
        r.1 >= 1,
{
    let (num, den): (u32, u32) = unpack_size(packed);
    if den == 0 {
        (num, 1)
    } else {
        (num, den)
    }
}

/// The memory that frames waiting in one channel may take up.
pub const CHANNEL_BUDGET_BYTES: u64 = 67_108_864;

/// How many frames of twelve bytes a pixel fit the budget, but never fewer than
/// two, without which nothing overlaps, and never more than four.
pub open spec fn depth_for(width: u32, height: u32) -> int {
    let frame_bytes = width * height * 12;
    let fitting = CHANNEL_BUDGET_BYTES as int / (if frame_bytes == 0 {
        1
    } else {
        frame_bytes
    });
    if fitting < 2 {
        2
    } else if fitting > 4 {
        4
    } else {
        fitting
    }
}

/// How many frames a channel between two worker threads holds.
pub fn channel_depth(width: u32, height: u32) -> (r: usize)
    ensures
        r == depth_for(width, height),
        2 <= r <= 4,
{
    assert(width * height <= u128::MAX && width * height * 12 <= u128::MAX) by (nonlinear_arith)
        requires
            width <= u32::MAX,
            height <= u32::MAX,
    ;
    let bytes: u128 = width as u128 * height as u128 * 12;
    let per_frame: u128 = if bytes == 0 {
        1
    } else {
        bytes
    };
    let fitting: u128 = CHANNEL_BUDGET_BYTES as u128 / per_frame;
    if fitting < 2 {
        2
    } else if fitting > 4 {
        4
    } else {
        fitting as usize
    }
}

/// A channel deeper than the least keeps within the budget.
pub proof fn law_deep_channels_keep_the_budget(width: u32, height: u32)
    requires
        depth_for(width, height) > 2,
    ensures
        depth_for(width, height) * (width * height * 12) <= CHANNEL_BUDGET_BYTES,
{
    let bytes = width * height * 12;
    let depth = depth_for(width, height);
    if bytes != 0 {
        let budget = CHANNEL_BUDGET_BYTES as int;
        assert(bytes > 0) by (nonlinear_arith)
            requires
                bytes != 0,
                bytes == width * height * 12,
        ;
        vstd::arithmetic::div_mod::lemma_fundamental_div_mod(budget, bytes);
        let q = budget / bytes;
        assert(depth * bytes <= budget) by (nonlinear_arith)
            requires
                depth <= q,
                budget == bytes * q + budget % bytes,
                0 <= budget % bytes,
                bytes > 0,
        ;
    } else {
        assert(depth * bytes == 0) by (nonlinear_arith)
            requires
                bytes == 0,
        ;
    }
}

/// The tag of a property that holds an unsigned 64-bit number.
pub const VT_UI8: u16 = 21;

/// The duration that a property holds, in ticks of 100 ns; `None` where its tag
/// says that it holds something else. A value beyond the signed range reads as
/// a negative number.
pub fn duration_100ns(tag: u16, value: u64) -> (r: Option<i64>)
    ensures
        r == (if tag == VT_UI8 {
            Some(value as i64)
        } else {
            None
        }),
{
    if tag == VT_UI8 {
        Some(value as i64)
    } else {
        None
    }
}

/// What becomes of a sample that was read.
#[derive(Debug, Clone, Copy, PartialEq, Eq, Structural)]
pub enum SampleRoute {
    /// The video stream is over: stop reading.
    Stop,
    /// Nothing came with the read, or it is of a stream that is not used.
    Skip,
    /// Passed on as it is.
    Audio,
    /// Taken apart and transformed.
    Video,
}

/// What becomes of a read: an end that is not the video stream's does not stop
/// anything.
pub open spec fn route_for(
    end_of_stream: bool,
    stream: u32,
    has_sample: bool,
    video_stream: u32,
    audio_stream: Option<u32>,
) -> SampleRoute {
    if end_of_stream && stream == video_stream {
        SampleRoute::Stop
    } else if !has_sample {
        SampleRoute::Skip
    } else if audio_stream == Some(stream) {
        SampleRoute::Audio
    } else if stream != video_stream {
        SampleRoute::Skip
    } else {
        SampleRoute::Video
    }
}

/// Decides what becomes of a read.
pub fn route_sample(
    end_of_stream: bool,
    stream: u32,
    has_sample: bool,
    video_stream: u32,
    audio_stream: Option<u32>,
) -> (r: SampleRoute)
    ensures
        r == route_for(end_of_stream, stream, has_sample, video_stream, audio_stream),
{
    if end_of_stream && stream == video_stream {
        return SampleRoute::Stop;
    }
    if !has_sample {
        return SampleRoute::Skip;
    }
    if let Some(audio) = audio_stream {
        if audio == stream {
            return SampleRoute::Audio;
        }
    }
    if stream != video_stream {
        return SampleRoute::Skip;
    }
    SampleRoute::Video
}

/// The stream of the output that passed-through audio must be.
pub const AUDIO_OUT_STREAM: u32 = 1;

/// What is reported where it is not.
pub open spec fn audio_stream_error(got: u32) -> Seq<char> {
    "expected passthrough audio to land on sink writer stream 1, got "@ + crate::text::decimal(
        got as nat,
    )
}

/// Checks which stream of the output passed-through audio became.
pub fn check_audio_stream(got: u32) -> (res: Result<(), String>)
    ensures
        match res {
            Ok(_) => got == AUDIO_OUT_STREAM,
            Err(text) => got != AUDIO_OUT_STREAM && text@ == audio_stream_error(got),
        },
{
    if got == AUDIO_OUT_STREAM {
        return Ok(());
    }
    let mut text = "expected passthrough audio to land on sink writer stream 1, got ".to_owned();
    push_decimal(&mut text, got as u64);
    Err(text)
}

/// The time stamps of the frames written: each starts where the one before it
/// ended.
pub struct FrameClock {
    next: i64,
    duration: i64,
}

impl FrameClock {
    /// The time stamp of the next frame.
    pub closed spec fn next(self) -> i64 {
        self.next
    }

    /// The duration of every frame.
    pub closed spec fn duration(self) -> i64 {
        self.duration
    }

    /// A clock whose first frame starts at 0.
    pub fn new(duration: i64) -> (c: Self)
        ensures
            c.next() == 0,
            c.duration() == duration,
    {
        FrameClock { next: 0, duration }
    }

    /// The time stamp of one more frame.
    pub fn tick(&mut self) -> (r: i64)
        requires
            i64::MIN <= old(self).next() + old(self).duration() <= i64::MAX,
        ensures
            r == old(self).next(),
            final(self).next() == old(self).next() + old(self).duration(),
            final(self).duration() == old(self).duration(),
    {
        let at: i64 = self.next;
        self.next = self.next + self.duration;
        at
    }
}

/// How a run on three threads ended, once all three have: the first failure
/// counts, decoding before computing before encoding; else the number of frames
/// written.
pub fn joined_result(
    decode: Result<(), String>,
    compute: Result<(), String>,
    encode: Result<u64, String>,
) -> (res: Result<u64, String>)
    ensures
        match (decode, compute) {
            (Err(e), _) => res == Err::<u64, String>(e),
            (Ok(_), Err(e)) => res == Err::<u64, String>(e),
            (Ok(_), Ok(_)) => res == encode,
        },
{
    match decode {
        Err(e) => Err(e),
        Ok(()) => match compute {
            Err(e) => Err(e),
            Ok(()) => encode,
        },
    }
}

/// The kind of a stream.
#[derive(Debug, Clone, Copy, PartialEq, Eq, Structural)]
pub enum StreamKind {
    Video,
    Audio,
    Other,
}

/// What asking for the type of the next stream gave.
pub enum StreamProbe {
    /// A stream of this kind.
    Stream(StreamKind),
    /// There are no more streams.
    NoMore,
    /// The question itself failed.
    Failed(String),
}

/// What the answer means for the search.
pub enum SearchStep {
    /// This is the stream.
    Found,
    /// Ask for the next one.
    Next,
    /// The input has no such stream.
    Absent,
    /// The search failed.
    Fail(String),
}

/// Takes one answer in the search for the first stream of a kind.
pub fn search_step(probe: StreamProbe, wanted: StreamKind) -> (r: SearchStep)
    ensures
        match probe {
            StreamProbe::Stream(kind) => if kind == wanted {
                r is Found
            } else {
                r is Next
            },
            StreamProbe::NoMore => r is Absent,
            StreamProbe::Failed(e) => r matches SearchStep::Fail(text) && text@
                == "failed to enumerate source streams: "@ + e@,
        },
{
    match probe {
        StreamProbe::Stream(kind) => if kind == wanted {
            SearchStep::Found
        } else {
            SearchStep::Next
        },
        StreamProbe::NoMore => SearchStep::Absent,
        StreamProbe::Failed(e) => SearchStep::Fail(
            crate::text::joined("failed to enumerate source streams: ", e.as_str()),
        ),
    }
}

} // verus!
