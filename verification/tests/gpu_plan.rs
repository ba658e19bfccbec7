use wavefold::dct_backend::{DctAlgorithm, SlotCall, TransformError};
use wavefold::fft_dispatch::{
    combined_table, dct2_passes, dct3_passes, digit_reverse_table, fft_passes, interleave_table,
    permute_dispatch, stage_dispatch, FftBuffer, FftKernel,
};
use wavefold::gpu::{
    axis_plan, axis_plans, buffer_set, check_plane, groups_of, pass_params, plane_passes,
    poll_result, Axis, CacheStep, KeptBuffers, PlaneBuffer, PollOutcome, POLL_TIMEOUT_SECS,
};

fn bytes_of(words: &[u32]) -> Vec<u8> {
    words.iter().flat_map(|w| w.to_ne_bytes()).collect()
}

#[test]
fn planes_are_checked_in_order() {
    assert!(matches!(check_plane(12, 4, 3, 1 << 20), Ok(48)));
    assert!(matches!(
        check_plane(0, 0, 3, 1 << 20),
        Err(TransformError::ZeroDimension { width: 0, height: 3 })
    ));
    assert!(matches!(
        check_plane(11, 4, 3, 1 << 20),
        Err(TransformError::WrongLength { len: 11, expected: 12 })
    ));
    // 4 * 4 * 4 = 64 bytes of basis is the most that fits.
    assert!(check_plane(12, 4, 3, 64).is_ok());
    let Err(e) = check_plane(12, 4, 3, 63) else { panic!("taken") };
    assert_eq!(
        e.message(),
        "process_plane: 4x3 frame needs a basis buffer larger than this GPU allows (63 bytes max); try a lower resolution"
    );
    assert!(matches!(
        check_plane(12, 3, 4, 63),
        Err(TransformError::BasisTooLarge { width: 3, height: 4, max_binding: 63 })
    ));
    // Basis sizes beyond 64 bits are still told to be too large.
    assert!(matches!(
        check_plane(u32::MAX as usize, u32::MAX, 1, u64::MAX),
        Err(TransformError::BasisTooLarge { .. })
    ));
}

#[test]
fn buffers_are_rebuilt_updated_or_reused() {
    let mut kept = KeptBuffers::new();
    assert_eq!(kept.cache_step(4, 3, 7), CacheStep::Rebuild);
    assert_eq!(kept.cache_step(4, 3, 7), CacheStep::Reuse);
    // A new cutoff takes effect at once, and only once.
    assert_eq!(kept.cache_step(4, 3, 8), CacheStep::UpdateCutoff);
    assert_eq!(kept.cache_step(4, 3, 8), CacheStep::Reuse);
    assert_eq!(kept.cache_step(4, 3, 7), CacheStep::UpdateCutoff);
    // A new size rebuilds, whatever the cutoff.
    assert_eq!(kept.cache_step(3, 4, 7), CacheStep::Rebuild);
    assert_eq!(kept.cache_step(3, 5, 9), CacheStep::Rebuild);
    assert_eq!(kept.cache_step(3, 5, 9), CacheStep::Reuse);
}

#[test]
fn passes_chain_from_the_upload_to_the_result() {
    let passes = plane_passes();
    assert_eq!(
        passes.map(|p| (p.axis, p.inverse, p.apply_mask, p.clamp_output)),
        [
            (Axis::Row, false, false, false),
            (Axis::Column, false, true, false),
            (Axis::Column, true, false, false),
            (Axis::Row, true, false, true),
        ]
    );
    assert_eq!(passes[0].from, PlaneBuffer::Input);
    assert_eq!(passes[3].to, PlaneBuffer::B);
    for i in 1..4 {
        assert_eq!(passes[i].from, passes[i - 1].to);
    }
}

#[test]
fn workgroups_round_up() {
    assert_eq!(groups_of(0, 16), 0);
    assert_eq!(groups_of(1, 16), 1);
    assert_eq!(groups_of(16, 16), 1);
    assert_eq!(groups_of(17, 16), 2);
    assert_eq!(groups_of(u32::MAX, 16), 268_435_456);
    assert_eq!(groups_of(u32::MAX, 1), u32::MAX);
}

#[test]
fn pass_parameters_are_words_in_memory_order() {
    let threshold = 0.5f32.to_bits();
    assert_eq!(
        pass_params(1920, 1080, threshold, true, false),
        bytes_of(&[1920, 1080, threshold, 1, 0, 0, 0, 0])
    );
    assert_eq!(
        pass_params(0x0102_0304, 7, 0, false, true),
        bytes_of(&[0x0102_0304, 7, 0, 0, 1, 0, 0, 0])
    );
}

#[test]
fn axes_take_the_fft_where_they_can() {
    assert_eq!(axis_plan(1080, DctAlgorithm::Fft), Some(vec![2, 2, 2, 3, 3, 3, 5]));
    assert_eq!(axis_plan(1080, DctAlgorithm::Gemm), None);
    assert_eq!(axis_plan(1082, DctAlgorithm::Fft), None);
    assert_eq!(axis_plan(15, DctAlgorithm::Fft), None);
}

#[test]
fn every_plane_in_flight_has_its_own_buffers() {
    let mut seen = vec![];
    for slot in 0..2 {
        for channel in 0..3 {
            let Ok(set) = buffer_set(SlotCall::Submit, slot, channel) else { panic!("refused") };
            assert_eq!(set, slot * 3 + channel);
            seen.push(set);
        }
    }
    assert_eq!(seen, vec![0, 1, 2, 3, 4, 5]);
    let Err(e) = buffer_set(SlotCall::Finish, 2, 0) else { panic!("taken") };
    assert_eq!(e.message(), "finish_rgb: frame_slot must be 0 or 1 (got 2)");
}

#[test]
fn a_wait_that_fails_is_told() {
    assert!(poll_result(PollOutcome::Done).is_ok());
    let Err(e) = poll_result(PollOutcome::TimedOut) else { panic!("fine") };
    assert_eq!(
        e.message(),
        format!("GPU did not respond within {:?} - likely a driver reset (Windows TDR) from a too-slow DCT dispatch at this resolution; try --backend cpu or a lower resolution", std::time::Duration::from_secs(POLL_TIMEOUT_SECS))
    );
    let Err(e) = poll_result(PollOutcome::Failed("lost".to_string())) else { panic!("fine") };
    assert_eq!(e.message(), "gpu poll failed: lost");
}

#[test]
fn permutation_tables() {
    assert_eq!(digit_reverse_table(8, &[2, 2, 2]), vec![0, 4, 2, 6, 1, 5, 3, 7]);
    assert_eq!(interleave_table(6), vec![0, 5, 1, 4, 2, 3]);
    // The combined table interleaves first and reverses the digits then.
    let combined = combined_table(12, &[2, 2, 3]);
    let plain = digit_reverse_table(12, &[2, 2, 3]);
    let woven = interleave_table(12);
    for i in 0..12 {
        assert_eq!(combined[i], plain[woven[i] as usize]);
    }
    let mut sorted = combined.clone();
    sorted.sort();
    assert_eq!(sorted, (0..12).collect::<Vec<u32>>());
}

#[test]
fn dispatches_cover_the_batch() {
    let d = permute_dispatch(210, 3);
    assert_eq!(d.params, bytes_of(&[210, 3, 0, 0]));
    assert_eq!(d.workgroups, 3); // 630 items
    // Stride 7 and radix 5 of 210: 6 groups of 7 butterflies, twice.
    let d = stage_dispatch(210, 7, 5, 2, false);
    assert_eq!(d.params, bytes_of(&[210, 7, 5, 2, (-1f32).to_bits(), 0, 0, 0]));
    assert_eq!(d.workgroups, 1); // 84 items
    let d = stage_dispatch(1024, 1, 2, 1, true);
    assert_eq!(d.params, bytes_of(&[1024, 1, 2, 1, 1f32.to_bits(), 0, 0, 0]));
    assert_eq!(d.workgroups, 2); // 512 items
}

#[test]
fn fft_passes_permute_and_then_run_the_stages() {
    let passes = fft_passes(12, &[2, 2, 3], 4, true);
    let kernels: Vec<FftKernel> = passes.iter().map(|p| p.kernel).collect();
    assert_eq!(
        kernels,
        vec![FftKernel::Permute, FftKernel::Stage, FftKernel::Stage, FftKernel::Stage]
    );
    assert_eq!((passes[0].from, passes[0].to), (FftBuffer::Input, FftBuffer::Work));
    assert_eq!(passes[0].table, digit_reverse_table(12, &[2, 2, 3]));
    // The last factor's stage comes first, with stride 1.
    let one = 1f32.to_bits();
    assert_eq!(passes[1].dispatch.params, bytes_of(&[12, 1, 3, 4, one, 0, 0, 0]));
    assert_eq!(passes[2].dispatch.params, bytes_of(&[12, 3, 2, 4, one, 0, 0, 0]));
    assert_eq!(passes[3].dispatch.params, bytes_of(&[12, 6, 2, 4, one, 0, 0, 0]));
    for p in &passes[1..] {
        assert_eq!((p.from, p.to), (FftBuffer::Work, FftBuffer::Work));
        assert!(p.table.is_empty());
    }
}

#[test]
fn dct_passes_wrap_the_stages() {
    let passes = dct2_passes(12, &[2, 2, 3], 2);
    assert_eq!(passes.len(), 5);
    assert_eq!(passes[0].kernel, FftKernel::ForwardPermute);
    assert_eq!(passes[0].table, combined_table(12, &[2, 2, 3]));
    assert_eq!(passes[4].kernel, FftKernel::Dct2Post);
    assert_eq!((passes[4].from, passes[4].to), (FftBuffer::Work, FftBuffer::Output));
    assert_eq!(passes[1].dispatch.params, bytes_of(&[12, 1, 3, 2, (-1f32).to_bits(), 0, 0, 0]));

    let passes = dct3_passes(12, &[2, 2, 3], 2);
    assert_eq!(passes.len(), 6);
    assert_eq!(passes[0].kernel, FftKernel::Dct3Pre);
    assert_eq!((passes[0].from, passes[0].to), (FftBuffer::Input, FftBuffer::Natural));
    assert_eq!(passes[1].kernel, FftKernel::Permute);
    assert_eq!((passes[1].from, passes[1].to), (FftBuffer::Natural, FftBuffer::Work));
    assert_eq!(passes[5].kernel, FftKernel::Dct3Post);
    assert_eq!(passes[5].table, interleave_table(12));
    assert_eq!(passes[2].dispatch.params, bytes_of(&[12, 1, 3, 2, 1f32.to_bits(), 0, 0, 0]));
}

#[test]
fn kernels_have_the_names_of_the_shader() {
    assert_eq!(FftKernel::Permute.entry_point(), "digit_reverse_permute");
    assert_eq!(FftKernel::Stage.entry_point(), "fft_stage");
    assert_eq!(FftKernel::ForwardPermute.entry_point(), "dct_forward_permute");
    assert_eq!(FftKernel::Dct2Post.entry_point(), "dct2_post_twiddle");
    assert_eq!(FftKernel::Dct3Pre.entry_point(), "dct3_pre_twiddle");
    assert_eq!(FftKernel::Dct3Post.entry_point(), "dct3_post_gather");
}

#[test]
fn either_axis_may_take_the_fft() {
    let plans = |w, h, a| axis_plans(w, h, a).map(|p| (p.rows, p.cols));
    assert_eq!(plans(8, 6, DctAlgorithm::Fft), Some((Some(vec![2, 2, 2]), Some(vec![2, 3]))));
    assert_eq!(plans(8, 9, DctAlgorithm::Fft), Some((Some(vec![2, 2, 2]), None)));
    assert_eq!(plans(11, 6, DctAlgorithm::Fft), Some((None, Some(vec![2, 3]))));
    assert_eq!(plans(11, 9, DctAlgorithm::Fft), None);
    assert_eq!(plans(8, 6, DctAlgorithm::Gemm), None);
}

#[test]
fn tables_are_uploaded_in_memory_order() {
    let passes = fft_passes(8, &[2, 2, 2], 1, false);
    assert_eq!(passes[0].table_bytes(), bytes_of(&passes[0].table));
    assert_eq!(passes[0].table_bytes().len(), 32);
}
