//! What the GStreamer rules come to, in terms of names, time stamps and
//! messages.
use crate::codec::Codec;
use vstd::prelude::*;

verus! {

/// A frame is dropped if and only if it has a time stamp, and the frame just
/// before it has the same; and every frame, dropped or not, is the one that the
/// next is compared with.
pub proof fn law_only_a_repeated_stamp_is_dropped(pts: Option<u64>, r: bool)
    ensures
        forall|f: &mut crate::backends::gstreamer::PtsFilter|
            #[trigger] call_ensures(crate::backends::gstreamer::PtsFilter::accept, (f, pts), r)
                ==> {
                &&& !r <==> pts is Some && (*f).last() is Some && pts->Some_0 == (*f).last()->Some_0
                &&& (*final(f)).last() == pts
            },
{
}

/// The frames of a video, whose stamps rise from each frame to the next, are all
/// forwarded; and so they are where the first one is handed out twice, but for
/// the repeat.
pub proof fn law_rising_stamps_pass(last: Option<u64>, stamps: Seq<u64>)
    requires
        forall|i: int| 0 < i < stamps.len() ==> stamps[i - 1] < #[trigger] stamps[i],
        last is Some && stamps.len() > 0 ==> last->Some_0 < stamps[0],
    ensures
        crate::backends::gstreamer::let_through(last, stamps.map_values(|s: u64| Some(s)))
            == stamps.map_values(|s: u64| Some(s)),
        stamps.len() > 0 ==> crate::backends::gstreamer::let_through(
            last,
            seq![Some(stamps[0])] + stamps.map_values(|s: u64| Some(s)),
        ) == stamps.map_values(|s: u64| Some(s)),
    decreases stamps.len(),
{
    let all = stamps.map_values(|s: u64| Some(s));
    if stamps.len() > 0 {
        let rest = stamps.drop_first();
        assert forall|i: int| 0 < i < rest.len() implies rest[i - 1] < #[trigger] rest[i] by {
            assert(stamps[i + 1 - 1] < stamps[i + 1]);
        }
        if rest.len() > 0 {
            assert(stamps[1 - 1] < stamps[1]);
        }
        law_rising_stamps_pass(Some(stamps[0]), rest);
        assert(all.drop_first() =~= rest.map_values(|s: u64| Some(s)));
        assert(seq![all[0]] + all.drop_first() =~= all);
        let twice = seq![Some(stamps[0])] + all;
        assert(twice.drop_first() =~= all);
        reveal_with_fuel(crate::backends::gstreamer::let_through, 3);
    } else {
        assert(crate::backends::gstreamer::let_through(last, all) =~= all);
    }
}

/// Frames without a time stamp cannot be told apart, and are all forwarded.
pub proof fn law_unstamped_frames_pass(last: Option<u64>, n: nat)
    ensures
        crate::backends::gstreamer::let_through(last, Seq::new(n, |i: int| None::<u64>))
            == Seq::new(n, |i: int| None::<u64>),
    decreases n,
{
    let all = Seq::new(n, |i: int| None::<u64>);
    if n > 0 {
        law_unstamped_frames_pass(None, (n - 1) as nat);
        assert(all.drop_first() =~= Seq::new((n - 1) as nat, |i: int| None::<u64>));
        assert(seq![all[0]] + all.drop_first() =~= all);
    } else {
        assert(crate::backends::gstreamer::let_through(last, all) =~= all);
    }
}

/// A text is some text with `prefix` in front of it.
pub open spec fn extends(s: Seq<char>, prefix: Seq<char>) -> bool {
    exists|rest: Seq<char>| s == #[trigger] (prefix + rest)
}

/// What it means to begin with a text.
pub(crate) proof fn lemma_extends(s: Seq<char>, prefix: Seq<char>)
    ensures
        crate::text::begins_with(s, prefix) <==> extends(s, prefix),
{
    if crate::text::begins_with(s, prefix) {
        assert(s =~= prefix + s.skip(prefix.len() as int));
    }
    if extends(s, prefix) {
        let rest = choose|rest: Seq<char>| s == #[trigger] (prefix + rest);
        assert(s.take(prefix.len() as int) =~= prefix);
    }
}

/// No text extends both of two texts that differ in their first character.
proof fn lemma_not_both(s: Seq<char>, a: Seq<char>, b: Seq<char>)
    requires
        extends(s, a),
        a.len() > 0,
        b.len() > 0,
        a[0] != b[0],
    ensures
        !extends(s, b),
{
    let x = choose|rest: Seq<char>| s == #[trigger] (a + rest);
    if extends(s, b) {
        let y = choose|rest: Seq<char>| s == #[trigger] (b + rest);
        assert((a + x)[0] == (b + y)[0]);
    }
}

/// Decoding stops at a stream exactly if it is audio in an encoded form: it then
/// stays as it is.
pub proof fn law_decoding_stops_at_encoded_audio(name: &str, r: bool)
    requires
        call_ensures(crate::backends::gstreamer::autoplug_continue, (name,), r),
    ensures
        !r <==> extends(name@, "audio/"@) && name@ != "audio/x-raw"@,
{
    lemma_extends(name@, "audio/"@);
}

/// Where a stream goes: raw video to the transform, whatever else is linked; the
/// first audio stream to the output, copied if decoding left it encoded and
/// encoded anew if it is raw; anything else nowhere.
pub proof fn law_streams_are_routed_by_type(
    name: &str,
    audio_linked: bool,
    r: crate::backends::gstreamer::PadRoute,
)
    requires
        call_ensures(crate::backends::gstreamer::route_pad, (name, audio_linked), r),
    ensures
        r is Video <==> extends(name@, "video/x-raw"@),
        r is AudioReencode <==> !audio_linked && name@ == "audio/x-raw"@,
        r is AudioCopy <==> !audio_linked && name@ != "audio/x-raw"@ && extends(name@, "audio/"@),
{
    lemma_extends(name@, "audio/"@);
    lemma_extends(name@, "video/x-raw"@);
    reveal_strlit("audio/");
    reveal_strlit("audio/x-raw");
    reveal_strlit("video/x-raw");
    if extends(name@, "video/x-raw"@) {
        lemma_not_both(name@, "video/x-raw"@, "audio/"@);
        assert(name@ != "audio/x-raw"@) by {
            let y = choose|rest: Seq<char>| name@ == #[trigger] ("video/x-raw"@ + rest);
            assert(("video/x-raw"@ + y)[0] == 'v');
            assert("audio/x-raw"@[0] == 'a');
        }
    }
    if name@ == "audio/x-raw"@ {
        assert("audio/x-raw"@ =~= "audio/"@ + seq!['x', '-', 'r', 'a', 'w']);
    }
}

/// A stream that decoding stopped at is copied, and one that it went through is
/// not: what the two rules say of audio fits together.
pub proof fn law_what_is_not_decoded_is_copied(
    name: &str,
    went_on: bool,
    r: crate::backends::gstreamer::PadRoute,
)
    requires
        call_ensures(crate::backends::gstreamer::autoplug_continue, (name,), went_on),
        call_ensures(crate::backends::gstreamer::route_pad, (name, false), r),
    ensures
        !went_on <==> r is AudioCopy,
{
    law_decoding_stops_at_encoded_audio(name, went_on);
    law_streams_are_routed_by_type(name, false, r);
}

/// `c` is the letter `small` or its capital `big`.
pub open spec fn letter(c: char, small: char, big: char) -> bool {
    c == small || c == big
}

/// The muxer for MP4 and QuickTime serves exactly the extensions `mp4` and `mov`,
/// each letter in either case; every other output, and one without an extension,
/// goes to the Matroska muxer.
pub proof fn law_muxer_by_extension(extension: Option<&str>, r: &'static str)
    requires
        call_ensures(crate::backends::gstreamer::muxer_for, (extension,), r),
    ensures
        r@ == "qtmux"@ <==> (extension matches Some(e) && e@.len() == 3 && letter(e@[0], 'm', 'M')
            && (letter(e@[1], 'p', 'P') && e@[2] == '4' || letter(e@[1], 'o', 'O') && letter(
            e@[2],
            'v',
            'V',
        ))),
        r@ == "qtmux"@ || r@ == "matroskamux"@,
{
    reveal_strlit("mp4");
    reveal_strlit("mov");
    reveal_strlit("qtmux");
    reveal_strlit("matroskamux");
    assert("qtmux"@.len() != "matroskamux"@.len());
    if let Some(e) = extension {
        if e@.len() == 3 {
            crate::text_laws::lemma_lower(e@[0], 'm');
            crate::text_laws::lemma_lower(e@[1], 'p');
            crate::text_laws::lemma_lower(e@[2], '4');
            crate::text_laws::lemma_lower(e@[1], 'o');
            crate::text_laws::lemma_lower(e@[2], 'v');
            assert("mp4"@[0] == 'm' && "mp4"@[1] == 'p' && "mp4"@[2] == '4');
            assert("mov"@[0] == 'm' && "mov"@[1] == 'o' && "mov"@[2] == 'v');
        }
    }
}

/// The format of a codec, as GStreamer elements are named after it.
pub open spec fn format_tag(codec: Codec) -> Seq<char> {
    if codec is H264 || codec is H264Hardware {
        "h264"@
    } else if codec is H265 || codec is H265Hardware {
        "h265"@
    } else if codec is Vp9 || codec is Vp9Hardware {
        "vp9"@
    } else {
        "av1"@
    }
}

/// Elements are named after the format: a hardware encoder is `va`, the format and
/// `enc`, a software encoder of VP9 or AV1 the format and `enc`, and one of H.264
/// or H.265 has an `x` for the `h`. The parser, where there is one, is the format
/// and `parse`, and there is one for H.264 and H.265 alone.
pub proof fn law_elements_are_named_after_the_format(
    codec: Codec,
    p: crate::backends::gstreamer::EncoderProfile,
)
    requires
        call_ensures(crate::backends::gstreamer::codec_profile, (codec,), p),
    ensures
        ({
            let hardware = codec is H264Hardware || codec is H265Hardware || codec is Vp9Hardware
                || codec is Av1Hardware;
            let tag = format_tag(codec);
            &&& hardware ==> p.element_factory_name@ == "va"@ + tag + "enc"@
            &&& codec is Vp9 || codec is Av1 ==> p.element_factory_name@ == tag + "enc"@
            &&& codec is H264 || codec is H265 ==> p.element_factory_name@ == "x"@ + tag.skip(1)
                + "enc"@
            &&& p.parser is Some <==> tag[0] == 'h'
            &&& p.parser matches Some(parser) ==> parser@ == tag + "parse"@
        }),
{
    reveal_strlit("h264");
    reveal_strlit("h265");
    reveal_strlit("vp9");
    reveal_strlit("av1");
    reveal_strlit("va");
    reveal_strlit("x");
    reveal_strlit("enc");
    reveal_strlit("parse");
    reveal_strlit("x264enc");
    reveal_strlit("x265enc");
    reveal_strlit("vp9enc");
    reveal_strlit("av1enc");
    reveal_strlit("vah264enc");
    reveal_strlit("vah265enc");
    reveal_strlit("vavp9enc");
    reveal_strlit("vaav1enc");
    reveal_strlit("h264parse");
    reveal_strlit("h265parse");
    let tag = format_tag(codec);
    let e = p.element_factory_name@;
    assert(p.is_for(codec));
    if codec is Vp9 || codec is Av1 {
        assert(e =~= tag + "enc"@);
    } else if codec is H264 || codec is H265 {
        assert(e =~= "x"@ + tag.skip(1) + "enc"@);
    } else {
        assert(e =~= "va"@ + tag + "enc"@);
    }
    assert(p.parser_text() == crate::backends::gstreamer::parser_of(codec));
    if let Some(parser) = p.parser {
        assert(parser@ =~= tag + "parse"@);
    }
}

/// No encoder holds frames back: a software encoder is told so by its own
/// property, of the value that switches looking ahead off, and a hardware encoder
/// is told nothing. VP9 and AV1 are also told a speed.
pub proof fn law_no_encoder_looks_ahead(
    codec: Codec,
    p: crate::backends::gstreamer::EncoderProfile,
)
    requires
        call_ensures(crate::backends::gstreamer::codec_profile, (codec,), p),
    ensures
        codec is H264Hardware || codec is H265Hardware || codec is Vp9Hardware
            || codec is Av1Hardware <==> p.properties@.len() == 0,
        codec is H264 || codec is H265 ==> p.properties@.len() == 1 && p.properties@[0].0@
            == "tune"@ && p.properties@[0].1@ == "zerolatency"@,
        codec is Vp9 || codec is Av1 ==> p.properties@.len() == 2 && p.properties@[1].0@
            == "lag-in-frames"@ && p.properties@[1].1@ == "0"@,
        codec is Vp9 ==> p.properties@[0].0@ == "deadline"@ && p.properties@[0].1@ == "1"@,
        codec is Av1 ==> p.properties@[0].0@ == "cpu-used"@ && p.properties@[0].1@ == "6"@,
{
    assert(p.is_for(codec));
    let t = p.property_texts();
    assert(t.len() == p.properties@.len());
    if p.properties@.len() > 0 {
        assert(t[0] == (p.properties@[0].0@, p.properties@[0].1@));
    }
    if p.properties@.len() > 1 {
        assert(t[1] == (p.properties@[1].0@, p.properties@[1].1@));
    }
}

/// The chain runs from the source of frames by way of a conversion to the
/// encoder, then its parser if it has one, and ends in a queue.
pub proof fn law_chain_runs_through_the_encoder(
    codec: Codec,
    p: crate::backends::gstreamer::EncoderProfile,
    chain: Vec<&'static str>,
)
    requires
        call_ensures(crate::backends::gstreamer::codec_profile, (codec,), p),
        call_ensures(crate::backends::gstreamer::encode_chain, (codec,), chain),
    ensures
        chain@.len() == (if p.parser is Some {
            5int
        } else {
            4
        }),
        chain@[0]@ == "appsrc"@,
        chain@[1]@ == "videoconvert"@,
        chain@[2]@ == p.element_factory_name@,
        p.parser matches Some(parser) ==> chain@[3]@ == parser@,
        chain@.last()@ == "queue"@,
{
    assert(p.is_for(codec));
    assert(p.parser_text() == crate::backends::gstreamer::parser_of(codec));
    let all = crate::backends::gstreamer::encode_elements(codec);
    assert(chain@.len() == all.len());
    assert(chain@[0]@ == all[0]);
    assert(chain@[1]@ == all[1]);
    assert(chain@[2]@ == all[2]);
    assert(chain@[3]@ == all[3]);
    assert(chain@[chain@.len() - 1]@ == all[all.len() - 1]);
}

/// Reading the bus ends at the end of the stream and at an error, and nowhere
/// else; an error is reported with where it came from, what it is and its
/// details, in this order; and a new duration is asked for exactly once the frame
/// rate is known.
pub proof fn law_bus_ends_at_eos_and_errors(
    event: &crate::backends::gstreamer::BusEvent,
    frame_rate_known: bool,
    r: crate::backends::gstreamer::BusStep,
)
    requires
        call_ensures(crate::backends::gstreamer::bus_step, (event, frame_rate_known), r),
    ensures
        r is Stop <==> event is Eos,
        r is Fail <==> event is Error,
        r is QueryDuration <==> event is DurationChanged && frame_rate_known,
        event matches crate::backends::gstreamer::BusEvent::Error { source, error, debug } ==> (
        r matches crate::backends::gstreamer::BusStep::Fail(text) && text@ == "pipeline error from "@
            + source@ + ": "@ + error@ + " ("@ + debug@ + ")"@),
{
}

/// What is missing is named between quotes.
pub proof fn law_missing_elements_are_named(name: &str, encoder: String, parser: String)
    requires
        call_ensures(crate::backends::gstreamer::encoder_missing, (name,), encoder),
        call_ensures(crate::backends::gstreamer::parser_missing, (name,), parser),
    ensures
        encoder@ == "encoder '"@ + name@ + "' not available in this GStreamer install"@,
        parser@ == "parser '"@ + name@ + "' not available in this GStreamer install"@,
{
}

} // verus!
