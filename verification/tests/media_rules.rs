use wavefold::backends::gstreamer::{
    autoplug_continue, bus_step, codec_profile, encode_chain, encoder_missing, muxer_for,
    parser_missing, route_pad, BusEvent, BusStep, PadRoute, PtsFilter,
};
use wavefold::backends::input_lines;
use wavefold::backends::media_foundation::{
    channel_depth, check_audio_stream, codec_target, duration_100ns, joined_result, route_sample,
    search_step, unpack_rate, unpack_size, FrameClock, SampleRoute, SearchStep, StreamKind,
    StreamProbe, VideoSubtype, DEFAULT_FRAME_RATE,
};
use wavefold::codec::Codec;

#[test]
fn codecs_have_elements() {
    let p = codec_profile(Codec::H265);
    assert_eq!(p.element_factory_name, "x265enc");
    assert_eq!(p.properties, vec![("tune", "zerolatency")]);
    assert_eq!(p.parser, Some("h265parse"));
    let p = codec_profile(Codec::Vp9);
    assert_eq!(p.element_factory_name, "vp9enc");
    assert_eq!(p.properties, vec![("deadline", "1"), ("lag-in-frames", "0")]);
    assert_eq!(p.parser, None);
    let p = codec_profile(Codec::Av1);
    assert_eq!(p.properties, vec![("cpu-used", "6"), ("lag-in-frames", "0")]);
    let names: Vec<&str> =
        Codec::ALL.iter().map(|c| codec_profile(*c).element_factory_name).collect();
    assert_eq!(
        names,
        vec![
            "x264enc",
            "vah264enc",
            "x265enc",
            "vah265enc",
            "vp9enc",
            "vavp9enc",
            "av1enc",
            "vaav1enc",
        ]
    );
    for c in Codec::ALL {
        assert_eq!(codec_profile(c).properties.is_empty(), c.is_hardware());
    }
}

#[test]
fn the_parser_goes_between_encoder_and_queue() {
    assert_eq!(
        encode_chain(Codec::H264),
        vec!["appsrc", "videoconvert", "x264enc", "h264parse", "queue"]
    );
    assert_eq!(
        encode_chain(Codec::Av1Hardware),
        vec!["appsrc", "videoconvert", "vaav1enc", "queue"]
    );
    assert_eq!(encoder_missing("vavp9enc"), "encoder 'vavp9enc' not available in this GStreamer install");
    assert_eq!(parser_missing("h264parse"), "parser 'h264parse' not available in this GStreamer install");
}

#[test]
fn the_extension_picks_the_muxer() {
    for ext in ["mp4", "MP4", "mov", "Mov"] {
        assert_eq!(muxer_for(Some(ext)), "qtmux");
    }
    for ext in ["mkv", "mp", "mp44", "", "webm"] {
        assert_eq!(muxer_for(Some(ext)), "matroskamux");
    }
    assert_eq!(muxer_for(None), "matroskamux");
}

#[test]
fn only_raw_audio_is_decoded_on() {
    assert!(autoplug_continue("video/x-h264"));
    assert!(autoplug_continue("audio/x-raw"));
    assert!(!autoplug_continue("audio/mpeg"));
    assert!(!autoplug_continue("audio/x-raw-float"));
    assert!(autoplug_continue(""));
}

#[test]
fn pads_are_routed() {
    assert_eq!(route_pad("video/x-raw", false), PadRoute::Video);
    assert_eq!(route_pad("video/x-raw", true), PadRoute::Video);
    assert_eq!(route_pad("video/x-h264", false), PadRoute::Unused);
    assert_eq!(route_pad("audio/mpeg", false), PadRoute::AudioCopy);
    assert_eq!(route_pad("audio/x-raw", false), PadRoute::AudioReencode);
    assert_eq!(route_pad("audio/mpeg", true), PadRoute::Unused);
    assert_eq!(route_pad("text/x-raw", false), PadRoute::Unused);
}

#[test]
fn a_repeated_frame_is_dropped() {
    let mut f = PtsFilter::new();
    assert!(f.accept(Some(0)));
    assert!(!f.accept(Some(0)));
    assert!(f.accept(Some(40)));
    assert!(f.accept(Some(80)));
    assert!(f.accept(None));
    assert!(f.accept(None));
    assert!(f.accept(Some(80)));
}

#[test]
fn bus_messages_are_taken() {
    assert!(matches!(bus_step(&BusEvent::Eos, false), BusStep::Stop));
    assert!(matches!(bus_step(&BusEvent::Other, true), BusStep::Continue));
    assert!(matches!(bus_step(&BusEvent::DurationChanged, true), BusStep::QueryDuration));
    assert!(matches!(bus_step(&BusEvent::DurationChanged, false), BusStep::Continue));
    let event = BusEvent::Error {
        source: "/pipeline/filesrc0".to_string(),
        error: "Resource not found.".to_string(),
        debug: "None".to_string(),
    };
    let BusStep::Fail(text) = bus_step(&event, true) else { panic!("went on") };
    assert_eq!(text, "pipeline error from /pipeline/filesrc0: Resource not found. (None)");
}

#[test]
fn large_inputs_are_warned_about() {
    assert_eq!(
        input_lines(640, 480, "25.000", "0.600"),
        vec!["640x480 @ 25.000 fps, cutoff=0.600".to_string()]
    );
    let lines = input_lines(641, 480, "30.000", "2.000");
    assert_eq!(lines.len(), 2);
    assert_eq!(
        lines[1],
        "warning: this resolution is large for a whole-frame DCT (cost grows ~quadratically); expect this to be slow"
    );
    assert_eq!(input_lines(u32::MAX, u32::MAX, "", "").len(), 2);
}

#[test]
fn codecs_have_targets() {
    for c in Codec::ALL {
        assert_eq!(codec_target(c).hardware, c.is_hardware());
    }
    assert_eq!(codec_target(Codec::H265Hardware).subtype, VideoSubtype::Hevc);
    assert_eq!(codec_target(Codec::Vp9).subtype, VideoSubtype::Vp90);
    assert_eq!(codec_target(Codec::H264).subtype, VideoSubtype::H264);
    assert_eq!(codec_target(Codec::Av1).subtype, VideoSubtype::Av1);
}

#[test]
fn packed_pairs_are_taken_apart() {
    assert_eq!(unpack_size((1920u64 << 32) | 1080), (1920, 1080));
    assert_eq!(unpack_size(u64::MAX), (u32::MAX, u32::MAX));
    assert_eq!(unpack_rate((30000u64 << 32) | 1001), (30000, 1001));
    assert_eq!(unpack_rate(30u64 << 32), (30, 1));
    assert_eq!(DEFAULT_FRAME_RATE, (30u64 << 32) | 1);
    assert_eq!(unpack_rate(DEFAULT_FRAME_RATE), (30, 1));
}

#[test]
fn channels_keep_to_their_budget() {
    assert_eq!(channel_depth(64, 64), 4);
    assert_eq!(channel_depth(0, 0), 4);
    assert_eq!(channel_depth(1920, 1080), 2);
    assert_eq!(channel_depth(1280, 1024), 4);
    assert_eq!(channel_depth(1600, 1100), 3);
    assert_eq!(channel_depth(3840, 2160), 2);
    assert_eq!(channel_depth(u32::MAX, u32::MAX), 2);
}

#[test]
fn durations_are_told_by_their_tag() {
    assert_eq!(duration_100ns(21, 10_000_000), Some(10_000_000));
    assert_eq!(duration_100ns(20, 10_000_000), None);
    assert_eq!(duration_100ns(21, u64::MAX), Some(-1));
}

#[test]
fn samples_are_routed() {
    assert_eq!(route_sample(true, 0, false, 0, Some(1)), SampleRoute::Stop);
    assert_eq!(route_sample(true, 1, false, 0, Some(1)), SampleRoute::Skip);
    assert_eq!(route_sample(false, 1, true, 0, Some(1)), SampleRoute::Audio);
    assert_eq!(route_sample(false, 0, true, 0, Some(1)), SampleRoute::Video);
    assert_eq!(route_sample(false, 2, true, 0, Some(1)), SampleRoute::Skip);
    assert_eq!(route_sample(false, 1, true, 0, None), SampleRoute::Skip);
    assert_eq!(route_sample(false, 0, false, 0, None), SampleRoute::Skip);
}

#[test]
fn passed_through_audio_must_be_the_second_stream() {
    assert_eq!(check_audio_stream(1), Ok(()));
    assert_eq!(
        check_audio_stream(2),
        Err("expected passthrough audio to land on sink writer stream 1, got 2".to_string())
    );
}

#[test]
fn frames_follow_each_other() {
    let mut clock = FrameClock::new(333_667);
    assert_eq!(clock.tick(), 0);
    assert_eq!(clock.tick(), 333_667);
    assert_eq!(clock.tick(), 667_334);
}

#[test]
fn the_first_failure_counts() {
    let bad = |s: &str| Err(s.to_string());
    assert_eq!(joined_result(Ok(()), Ok(()), Ok(5)), Ok(5));
    assert_eq!(joined_result(bad("d"), Err("c".to_string()), Ok(5)), Err("d".to_string()));
    assert_eq!(joined_result(Ok(()), bad("c"), Err("e".to_string())), Err("c".to_string()));
    assert_eq!(joined_result(Ok(()), Ok(()), Err("e".to_string())), Err("e".to_string()));
}

#[test]
fn streams_are_searched_in_order() {
    let step = |p: StreamProbe| search_step(p, StreamKind::Audio);
    assert!(matches!(step(StreamProbe::Stream(StreamKind::Video)), SearchStep::Next));
    assert!(matches!(step(StreamProbe::Stream(StreamKind::Other)), SearchStep::Next));
    assert!(matches!(step(StreamProbe::Stream(StreamKind::Audio)), SearchStep::Found));
    assert!(matches!(step(StreamProbe::NoMore), SearchStep::Absent));
    let SearchStep::Fail(e) = step(StreamProbe::Failed("gone".to_string())) else {
        panic!("went on")
    };
    assert_eq!(e, "failed to enumerate source streams: gone");
}
