use wavefold::codec::Codec;
use wavefold::dct_backend::{ComputeBackend, DctAlgorithm};
use wavefold::encoders::{EncoderChoice, PixelFormat};
use wavefold::media_backend::MediaBackendChoice;

#[test]
fn codecs_have_labels() {
    let labels: Vec<&str> = Codec::ALL.iter().map(|c| c.label()).collect();
    assert_eq!(
        labels,
        vec![
            "H.264",
            "H.264 (hardware)",
            "H.265 / HEVC",
            "H.265 / HEVC (hardware)",
            "VP9",
            "VP9 (hardware)",
            "AV1",
            "AV1 (hardware)",
        ]
    );
}

#[test]
fn every_second_codec_is_hardware() {
    for (i, c) in Codec::ALL.iter().enumerate() {
        assert_eq!(c.is_hardware(), i % 2 == 1);
    }
}

#[test]
fn encoders_have_profiles() {
    let all: Vec<(&str, &str, usize)> = EncoderChoice::ALL
        .iter()
        .map(|e| (e.label(), e.profile().codec_name, e.profile().options.len()))
        .collect();
    assert_eq!(
        all,
        vec![
            ("H.264 (libx264)", "libx264", 1),
            ("H.265 / HEVC (libx265)", "libx265", 1),
            ("VP9 (libvpx-vp9)", "libvpx-vp9", 2),
            ("AV1 (libaom-av1)", "libaom-av1", 1),
        ]
    );
    assert!(matches!(EncoderChoice::Vp9.profile().pixel_format, PixelFormat::Yuv420p));
    assert_eq!(EncoderChoice::Vp9.profile().options, vec![("deadline", "good"), ("cpu-used", "4")]);
    assert_eq!(EncoderChoice::H264.profile().options, vec![("preset", "medium")]);
    assert_eq!(EncoderChoice::Av1.profile().options, vec![("cpu-used", "6")]);
}

#[test]
fn backends_have_labels() {
    let labels: Vec<&str> = ComputeBackend::ALL.iter().map(|b| b.label()).collect();
    assert_eq!(labels, vec!["GPU (wgpu compute)", "CPU (software, no GPU required)"]);
    let labels: Vec<&str> = DctAlgorithm::ALL.iter().map(|a| a.label()).collect();
    assert_eq!(labels, vec!["FFT", "matrix multiply"]);
}

#[test]
fn each_platform_has_one_media_backend() {
    assert_eq!(MediaBackendChoice::all(false), [MediaBackendChoice::Gstreamer]);
    assert_eq!(MediaBackendChoice::all(true), [MediaBackendChoice::MediaFoundation]);
    assert_eq!(MediaBackendChoice::Gstreamer.label(), "GStreamer");
    assert_eq!(MediaBackendChoice::MediaFoundation.label(), "Media Foundation");
}

#[test]
fn only_the_chosen_backend_is_built() {
    let built = ComputeBackend::Cpu.build(|| panic!("not asked for"), || 7);
    assert_eq!(built, Ok(7));
    let built = ComputeBackend::Gpu.build(|| Ok(8), || panic!("not asked for"));
    assert_eq!(built, Ok(8));
    let built = ComputeBackend::Gpu.build(|| Err("no adapter".to_string()), || 9);
    assert_eq!(built, Err("GPU init failed: no adapter".to_string()));
}
