//! What the Media Foundation rules come to, in terms of formats, sizes, samples
//! and time stamps.
use crate::codec::Codec;
use vstd::prelude::*;

verus! {

/// A codec asks for the format it is named after, whether or not a hardware
/// encoder may serve; and the hardware codecs, and they alone, let one serve.
pub proof fn law_target_is_the_codec_asked_for(
    codec: Codec,
    software: crate::backends::media_foundation::CodecTarget,
    target: crate::backends::media_foundation::CodecTarget,
)
    requires
        call_ensures(crate::backends::media_foundation::codec_target, (codec,), target),
        call_ensures(
            crate::backends::media_foundation::codec_target,
            (codec.software(),),
            software,
        ),
    ensures
        target.subtype == software.subtype,
        target.subtype is H264 <==> codec is H264 || codec is H264Hardware,
        target.subtype is Hevc <==> codec is H265 || codec is H265Hardware,
        target.subtype is Vp90 <==> codec is Vp9 || codec is Vp9Hardware,
        target.subtype is Av1 <==> codec is Av1 || codec is Av1Hardware,
        target.hardware <==> codec is H264Hardware || codec is H265Hardware || codec is Vp9Hardware
            || codec is Av1Hardware,
        !software.hardware,
{
}

/// A size that was packed, the width in the upper half and the height in the
/// lower one, comes out as it went in.
pub proof fn law_packed_size_comes_back(width: u32, height: u32, r: (u32, u32))
    requires
        call_ensures(
            crate::backends::media_foundation::unpack_size,
            ((width * 0x1_0000_0000 + height) as u64,),
            r,
        ),
    ensures
        r == (width, height),
{
    let packed = (width * 0x1_0000_0000 + height) as u64;
    assert(r.0 * 0x1_0000_0000 + r.1 == packed);
}

/// A frame rate that was packed comes out as it went in, but that nothing is
/// divided by zero; and the default is 30 frames a second.
pub proof fn law_packed_rate_comes_back(num: u32, den: u32, r: (u32, u32), default: (u32, u32))
    requires
        call_ensures(
            crate::backends::media_foundation::unpack_rate,
            ((num * 0x1_0000_0000 + den) as u64,),
            r,
        ),
        call_ensures(
            crate::backends::media_foundation::unpack_rate,
            (crate::backends::media_foundation::DEFAULT_FRAME_RATE,),
            default,
        ),
    ensures
        r.0 == num,
        r.1 > 0,
        den > 0 ==> r.1 == den,
        den == 0 ==> r.1 == 1,
        default == (30u32, 1u32),
{
    let packed = (num * 0x1_0000_0000 + den) as u64;
    assert(packed / 0x1_0000_0000 == num && packed % 0x1_0000_0000 == den);
    let d = crate::backends::media_foundation::DEFAULT_FRAME_RATE;
    assert(d / 0x1_0000_0000 == 30 && d % 0x1_0000_0000 == 1);
}

/// A channel holds two to four frames: of three or four, no more than fit 64 MiB
/// at twelve bytes a pixel, and of two or three, so many that one more would not
/// fit.
pub proof fn law_channel_is_as_deep_as_the_budget(width: u32, height: u32, r: usize)
    requires
        call_ensures(crate::backends::media_foundation::channel_depth, (width, height), r),
    ensures
        2 <= r <= 4,
        r > 2 ==> r * (width * height * 12) <= 64 * 1024 * 1024,
        r < 4 ==> (r + 1) * (width * height * 12) > 64 * 1024 * 1024,
{
    let bytes = width * height * 12;
    let budget = 64 * 1024 * 1024int;
    assert(bytes >= 0) by (nonlinear_arith)
        requires
            bytes == width * height * 12,
    ;
    if bytes == 0 {
        assert(r * bytes == 0) by (nonlinear_arith)
            requires
                bytes == 0,
        ;
        assert(budget / 1 == budget);
    } else {
        vstd::arithmetic::div_mod::lemma_fundamental_div_mod(budget, bytes);
        let q = budget / bytes;
        let rest = budget % bytes;
        if r > 2 {
            assert(r * bytes <= budget) by (nonlinear_arith)
                requires
                    r <= q,
                    budget == bytes * q + rest,
                    0 <= rest,
                    bytes > 0,
            ;
        }
        if r < 4 {
            assert((r + 1) * bytes > budget) by (nonlinear_arith)
                requires
                    q <= r,
                    budget == bytes * q + rest,
                    rest < bytes,
                    bytes > 0,
            ;
        }
    }
}

/// A frame of fewer bytes never gets a shallower channel.
pub proof fn law_smaller_frames_queue_no_less(
    width: u32,
    height: u32,
    r: usize,
    wide: u32,
    high: u32,
    other: usize,
)
    requires
        call_ensures(crate::backends::media_foundation::channel_depth, (width, height), r),
        call_ensures(crate::backends::media_foundation::channel_depth, (wide, high), other),
        width * height <= wide * high,
    ensures
        r >= other,
{
    law_channel_is_as_deep_as_the_budget(width, height, r);
    law_channel_is_as_deep_as_the_budget(wide, high, other);
    let (a, b) = (width * height * 12, wide * high * 12);
    if r < other {
        assert((r + 1) * a <= other * b) by (nonlinear_arith)
            requires
                r + 1 <= other,
                0 <= a <= b,
        ;
    }
}

/// A duration is read exactly from a property of the type for unsigned 64-bit
/// numbers, and is the number that it holds wherever that is a signed one too;
/// a number beyond that reads as 2^64 less.
pub proof fn law_durations_are_read_as_they_are(tag: u16, value: u64, r: Option<i64>)
    requires
        call_ensures(crate::backends::media_foundation::duration_100ns, (tag, value), r),
    ensures
        r is Some <==> tag == 21,
        r matches Some(ticks) ==> ticks == (if value <= i64::MAX {
            value as int
        } else {
            value - 0x1_0000_0000_0000_0000
        }),
{
    let ticks = value as i64;
    assert(value > 0x7FFF_FFFF_FFFF_FFFF ==> ticks == value - 0x1_0000_0000_0000_0000)
        by (bit_vector)
        requires
            ticks == value as i64,
    ;
}

/// Only the end of the video stops the reading. Else a sample of the audio stream
/// is passed on, one of the video stream transformed, and nothing else used;
/// where nothing came with the read, nothing is.
pub proof fn law_samples_go_by_stream(
    end_of_stream: bool,
    stream: u32,
    has_sample: bool,
    video_stream: u32,
    audio_stream: Option<u32>,
    r: crate::backends::media_foundation::SampleRoute,
)
    requires
        call_ensures(
            crate::backends::media_foundation::route_sample,
            (end_of_stream, stream, has_sample, video_stream, audio_stream),
            r,
        ),
    ensures
        r is Stop <==> end_of_stream && stream == video_stream,
        r is Audio || r is Video ==> has_sample,
        r is Audio ==> audio_stream == Some(stream),
        r is Video ==> stream == video_stream && audio_stream != Some(stream),
        has_sample && stream == video_stream && !end_of_stream && audio_stream != Some(stream)
            ==> r is Video,
        has_sample && audio_stream == Some(stream) && stream != video_stream ==> r is Audio,
        has_sample && audio_stream == Some(stream) && !end_of_stream ==> r is Audio,
{
}

/// Audio that is passed through must be the second stream of the output; the
/// report of any other names the one it became.
pub proof fn law_audio_is_the_second_stream(got: u32, res: Result<(), String>)
    requires
        call_ensures(crate::backends::media_foundation::check_audio_stream, (got,), res),
    ensures
        res is Ok <==> got == 1,
        res matches Err(text) ==> exists|number: Seq<char>|
            text@ == #[trigger] (
            "expected passthrough audio to land on sink writer stream 1, got "@ + number)
                && crate::text_laws::read_decimal(number) == got,
{
    crate::text_laws::law_decimal_reads_back(got as nat);
}

/// Frames are stamped one behind the other: of a clock that starts at 0 and gives
/// each frame the same duration, frame `i` starts after `i` durations.
pub proof fn law_frame_starts_after_those_before_it(
    clocks: Seq<crate::backends::media_foundation::FrameClock>,
    stamps: Seq<i64>,
    duration: i64,
    i: int,
)
    requires
        clocks.len() == stamps.len() + 1,
        call_ensures(
            crate::backends::media_foundation::FrameClock::new,
            (duration,),
            clocks[0],
        ),
        forall|k: int|
            #![trigger stamps[k]]
            0 <= k < stamps.len() ==> exists|c: &mut crate::backends::media_foundation::FrameClock|
                *c == clocks[k] && *final(c) == clocks[k + 1] && #[trigger] call_ensures(
                    crate::backends::media_foundation::FrameClock::tick,
                    (c,),
                    stamps[k],
                ),
        0 <= i < stamps.len(),
    ensures
        stamps[i] == i * duration,
        clocks[i].next() == i * duration,
        clocks[i].duration() == duration,
{
    assert forall|k: int| 0 <= k < stamps.len() implies {
        &&& #[trigger] stamps[k] == clocks[k].next()
        &&& clocks[k + 1].next() == clocks[k].next() + clocks[k].duration()
        &&& clocks[k + 1].duration() == clocks[k].duration()
    } by {
        let c = choose|c: &mut crate::backends::media_foundation::FrameClock|
            *c == clocks[k] && *final(c) == clocks[k + 1] && #[trigger] call_ensures(
                crate::backends::media_foundation::FrameClock::tick,
                (c,),
                stamps[k],
            );
    }
    lemma_clock(clocks, stamps, duration, i);
}

/// A clock after `i` frames.
proof fn lemma_clock(
    clocks: Seq<crate::backends::media_foundation::FrameClock>,
    stamps: Seq<i64>,
    duration: i64,
    i: int,
)
    requires
        clocks[0].next() == 0,
        clocks[0].duration() == duration,
        forall|k: int|
            0 <= k < stamps.len() ==> {
                &&& #[trigger] stamps[k] == clocks[k].next()
                &&& clocks[k + 1].next() == clocks[k].next() + clocks[k].duration()
                &&& clocks[k + 1].duration() == clocks[k].duration()
            },
        0 <= i < stamps.len(),
    ensures
        stamps[i] == i * duration,
        clocks[i].next() == i * duration,
        clocks[i].duration() == duration,
    decreases i,
{
    if i > 0 {
        lemma_clock(clocks, stamps, duration, i - 1);
        assert(i * duration == (i - 1) * duration + duration) by (nonlinear_arith);
    } else {
        assert(0 * duration == 0) by (nonlinear_arith);
    }
}

/// A run succeeds exactly if all three threads did, with the count of the last;
/// else the failure of the earliest thread that failed is reported.
pub proof fn law_run_succeeds_if_all_threads_do(
    decode: Result<(), String>,
    compute: Result<(), String>,
    encode: Result<u64, String>,
    res: Result<u64, String>,
)
    requires
        call_ensures(
            crate::backends::media_foundation::joined_result,
            (decode, compute, encode),
            res,
        ),
    ensures
        res is Ok <==> decode is Ok && compute is Ok && encode is Ok,
        res matches Ok(frames) ==> encode == Ok::<u64, String>(frames),
        decode matches Err(e) ==> res == Err::<u64, String>(e),
        decode is Ok && compute is Err ==> res == Err::<u64, String>(compute->Err_0),
        decode is Ok && compute is Ok && encode is Err ==> res == encode,
{
}

/// The first stream of the kind that is sought is found, whatever stands before
/// it, and no other is.
pub proof fn law_search_ends_at_the_kind(
    kind: crate::backends::media_foundation::StreamKind,
    wanted: crate::backends::media_foundation::StreamKind,
    at_stream: crate::backends::media_foundation::SearchStep,
    at_end: crate::backends::media_foundation::SearchStep,
    message: String,
    at_failure: crate::backends::media_foundation::SearchStep,
)
    requires
        call_ensures(
            crate::backends::media_foundation::search_step,
            (crate::backends::media_foundation::StreamProbe::Stream(kind), wanted),
            at_stream,
        ),
        call_ensures(
            crate::backends::media_foundation::search_step,
            (crate::backends::media_foundation::StreamProbe::NoMore, wanted),
            at_end,
        ),
        call_ensures(
            crate::backends::media_foundation::search_step,
            (crate::backends::media_foundation::StreamProbe::Failed(message), wanted),
            at_failure,
        ),
    ensures
        at_stream is Found <==> kind == wanted,
        at_stream is Next <==> kind != wanted,
        at_end is Absent,
        at_failure matches crate::backends::media_foundation::SearchStep::Fail(text) && text@
            == "failed to enumerate source streams: "@ + message@,
{
}

/// A frame is warned about exactly if it has more pixels than 640 by 480, and the
/// line about the input reads back as its size.
pub proof fn law_large_frames_are_warned_about(
    width: u32,
    height: u32,
    fps: &str,
    cutoff: &str,
    lines: Vec<String>,
)
    requires
        call_ensures(crate::backends::input_lines, (width, height, fps, cutoff), lines),
    ensures
        lines@.len() == 1 || lines@.len() == 2,
        lines@.len() == 2 <==> width * height > 640 * 480,
        exists|w: Seq<char>, h: Seq<char>|
            {
                &&& lines@[0]@ == #[trigger] (w + "x"@ + h) + " @ "@ + fps@ + " fps, cutoff="@
                    + cutoff@
                &&& crate::text_laws::read_decimal(w) == width
                &&& crate::text_laws::read_decimal(h) == height
            },
        lines@.len() == 2 ==> lines@[1]@
            == "warning: this resolution is large for a whole-frame DCT (cost grows ~quadratically); expect this to be slow"@,
{
    let (w, h) = (crate::text::decimal(width as nat), crate::text::decimal(height as nat));
    crate::text_laws::law_decimal_reads_back(width as nat);
    crate::text_laws::law_decimal_reads_back(height as nat);
    assert(lines@[0]@ == (w + "x"@ + h) + " @ "@ + fps@ + " fps, cutoff="@ + cutoff@);
}

} // verus!
