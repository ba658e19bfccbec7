use std::f32::consts::PI;
use wavefold::cpu::{apply_cutoff, DctCpu};
use wavefold::dct_backend::{frame_fits, DctBackend, RgbPlanes, SlotCall, TransformError};
use wavefold::dct_math::{dct_basis, transpose_rows, transpose_square, PlaneMath};

struct F32Math;

impl PlaneMath for F32Math {
    type Sample = f32;
    type Cutoff = f32;
    type Threshold = f32;

    fn zero(&self) -> f32 {
        0.0
    }

    fn multiply_add(&self, acc: f32, s: f32, c: f32) -> f32 {
        acc + s * c
    }

    fn basis_entry(&self, k: usize, i: usize, n: usize) -> f32 {
        let n_f = n as f32;
        let alpha = if k == 0 { (1.0 / n_f).sqrt() } else { (2.0 / n_f).sqrt() };
        alpha * ((PI / n_f) * (i as f32 + 0.5) * k as f32).cos()
    }

    fn threshold(&self, cutoff: f32) -> f32 {
        cutoff.clamp(0.0, 2.0) + f32::EPSILON
    }

    fn beyond(&self, threshold: f32, x: usize, denom_x: usize, y: usize, denom_y: usize) -> bool {
        x as f32 / denom_x as f32 + y as f32 / denom_y as f32 > threshold
    }

    fn pixel(&self, v: f32) -> f32 {
        v.clamp(0.0, 255.0)
    }
}

#[test]
fn cpu_full_cutoff_roundtrip_is_near_lossless() {
    let mut cpu = DctCpu::new(F32Math);
    let (w, h) = (24u32, 18u32);
    let plane: Vec<f32> = (0..(w * h)).map(|i| ((i * 37 + 11) % 256) as f32).collect();

    let Ok(out) = cpu.process_plane(&plane, w, h, 2.0) else { panic!("refused") };
    assert_eq!(out.len(), plane.len());
    for (a, b) in plane.iter().zip(out.iter()) {
        assert!((a - b).abs() < 1.0, "roundtrip drift too large: {a} vs {b}");
    }
}

#[test]
fn cpu_very_low_cutoff_collapses_toward_the_frame_average() {
    let mut cpu = DctCpu::new(F32Math);
    let (w, h) = (16u32, 16u32);
    let plane: Vec<f32> = (0..(w * h)).map(|i| (i % 256) as f32).collect();
    let mean = plane.iter().sum::<f32>() / plane.len() as f32;

    let Ok(out) = cpu.process_plane(&plane, w, h, 0.02) else { panic!("refused") };
    for v in out {
        assert!((v - mean).abs() < 5.0, "near-DC-only output {v} should be close to frame mean {mean}");
    }
}

#[test]
fn cpu_lower_cutoff_reduces_output_variance() {
    let mut cpu = DctCpu::new(F32Math);
    let (w, h) = (16u32, 16u32);
    let plane: Vec<f32> = (0..(w * h)).map(|i| ((i * 53) % 256) as f32).collect();

    let variance = |v: &[f32]| {
        let mean = v.iter().sum::<f32>() / v.len() as f32;
        v.iter().map(|x| (x - mean).powi(2)).sum::<f32>() / v.len() as f32
    };

    let Ok(high_c) = cpu.process_plane(&plane, w, h, 1.8) else { panic!("refused") };
    let Ok(low_c) = cpu.process_plane(&plane, w, h, 0.2) else { panic!("refused") };
    assert!(
        variance(&low_c) < variance(&high_c),
        "low cutoff should suppress detail more: var(low)={} var(high)={}",
        variance(&low_c),
        variance(&high_c)
    );
}

#[test]
fn no_cutoff_adds_variance() {
    let mut cpu = DctCpu::new(F32Math);
    let (w, h) = (20u32, 15u32);
    let plane: Vec<f32> = (0..(w * h)).map(|i| ((i * 41 + 7) % 256) as f32).collect();
    let variance = |v: &[f32]| {
        let mean = v.iter().sum::<f32>() / v.len() as f32;
        v.iter().map(|x| (x - mean).powi(2)).sum::<f32>() / v.len() as f32
    };
    for cutoff in [0.0, 0.1, 0.6, 1.3] {
        let Ok(out) = cpu.process_plane(&plane, w, h, cutoff) else { panic!("refused") };
        assert!(variance(&out) < variance(&plane), "cutoff {cutoff}");
    }
    let Ok(out) = cpu.process_plane(&plane, w, h, 2.0) else { panic!("refused") };
    assert!((variance(&out) - variance(&plane)).abs() < 1.0);
}

#[test]
fn refused_frames_need_no_basis() {
    assert!(frame_fits(12, 12, 12, 4, 3));
    assert!(frame_fits(0, 0, 0, 0, u32::MAX));
    assert!(frame_fits(12, 11, 12, u32::MAX, u32::MAX));
    let mut cpu = DctCpu::new(F32Math);
    let (good, bad, worse) = (vec![0f32; 12], vec![0f32; 11], vec![0f32; 10]);
    let Err(e) = cpu.process_rgb(&good, &bad, &worse, 4, 3, 1.0) else { panic!("taken") };
    assert!(matches!(e, TransformError::WrongLength { len: 11, expected: 12 }));
    let Err(e) = cpu.process_rgb(&good, &good, &worse, 4, 3, 1.0) else { panic!("taken") };
    assert!(matches!(e, TransformError::WrongLength { len: 10, expected: 12 }));
    let Err(e) = cpu.process_rgb(&[], &[], &[], 0, u32::MAX, 1.0) else { panic!("taken") };
    assert!(matches!(e, TransformError::ZeroDimension { width: 0, height: u32::MAX }));
}

#[test]
fn cpu_handles_one_pixel_wide_and_tall_frames() {
    let mut cpu = DctCpu::new(F32Math);
    for (w, h) in [(1u32, 9u32), (9u32, 1u32), (1u32, 1u32)] {
        let plane: Vec<f32> = (0..(w * h)).map(|i| (i * 17 % 256) as f32).collect();
        let Ok(out) = cpu.process_plane(&plane, w, h, 1.0) else { panic!("refused") };
        assert_eq!(out.len(), plane.len());
        assert!(out.iter().all(|v| v.is_finite()), "{w}x{h} produced a non-finite pixel");
    }
}

#[test]
fn cpu_rejects_zero_dimensions_and_mismatched_pixel_buffer() {
    let mut cpu = DctCpu::new(F32Math);
    assert!(cpu.process_plane(&[], 0, 4, 1.0).is_err());
    assert!(cpu.process_plane(&[], 4, 0, 1.0).is_err());
    let wrong_len = vec![0f32; 3];
    assert!(cpu.process_plane(&wrong_len, 4, 4, 1.0).is_err());
}

#[test]
fn a_refused_plane_says_why() {
    let mut cpu = DctCpu::new(F32Math);
    let Err(e) = cpu.process_plane(&[], 0, 4, 1.0) else { panic!("taken") };
    assert!(matches!(e, TransformError::ZeroDimension { width: 0, height: 4 }));
    assert_eq!(
        e.message(),
        "process_plane: width and height must both be non-zero (got 0x4)"
    );
    let Err(e) = cpu.process_plane(&[0.0; 3], 4, 5, 1.0) else { panic!("taken") };
    assert!(matches!(e, TransformError::WrongLength { len: 3, expected: 20 }));
    assert_eq!(
        e.message(),
        "process_plane: pixel buffer has 3 elements, expected width*height = 20"
    );
}

#[test]
fn a_change_of_frame_size_rebuilds_the_basis() {
    let mut cpu = DctCpu::new(F32Math);
    for (w, h) in [(8u32, 4u32), (4, 8), (8, 4), (6, 6)] {
        let plane: Vec<f32> = (0..(w * h)).map(|i| ((i * 29 + 3) % 256) as f32).collect();
        let Ok(out) = cpu.process_plane(&plane, w, h, 2.0) else { panic!("refused") };
        for (a, b) in plane.iter().zip(out.iter()) {
            assert!((a - b).abs() < 0.5, "{w}x{h}: {a} vs {b}");
        }
    }
}

/// Whole numbers in place of samples, with the unit matrix as the basis: every
/// step can be told exactly.
struct Whole;

impl PlaneMath for Whole {
    type Sample = i64;
    type Cutoff = i64;
    type Threshold = i64;

    fn zero(&self) -> i64 {
        0
    }

    fn multiply_add(&self, acc: i64, s: i64, c: i64) -> i64 {
        acc + s * c
    }

    fn basis_entry(&self, k: usize, i: usize, _n: usize) -> i64 {
        (k == i) as i64
    }

    fn threshold(&self, cutoff: i64) -> i64 {
        cutoff
    }

    fn beyond(&self, threshold: i64, x: usize, denom_x: usize, y: usize, denom_y: usize) -> bool {
        (x * denom_y + y * denom_x) as i64 > threshold * (denom_x * denom_y) as i64
    }

    fn pixel(&self, v: i64) -> i64 {
        v.clamp(0, 255)
    }
}

#[test]
fn coefficients_beyond_the_cutoff_are_dropped_and_pixels_clamped() {
    let mut cpu = DctCpu::new(Whole);
    let plane = [1i64, 2, 3, 4, 5, 6, 7, 8, 300];
    let Ok(out) = cpu.process_plane(&plane, 3, 3, 2) else { panic!("refused") };
    assert_eq!(out, vec![1, 2, 3, 4, 5, 6, 7, 8, 255]);
    let Ok(out) = cpu.process_plane(&plane, 3, 3, 1) else { panic!("refused") };
    assert_eq!(out, vec![1, 2, 3, 4, 5, 0, 7, 0, 0]);
    let Ok(out) = cpu.process_plane(&plane, 3, 3, 0) else { panic!("refused") };
    assert_eq!(out, vec![1, 0, 0, 0, 0, 0, 0, 0, 0]);
    let Ok(out) = cpu.process_plane(&plane, 3, 3, -1) else { panic!("refused") };
    assert_eq!(out, vec![0; 9]);
}

#[test]
fn the_cutoff_alone_drops_the_same_coefficients() {
    let plane = [1i64, 2, 3, 4, 5, 6, 7, 8, 9];
    assert_eq!(apply_cutoff(&Whole, &plane, 3, 3, 1), vec![1, 2, 3, 4, 5, 0, 7, 0, 0]);
    assert_eq!(apply_cutoff(&Whole, &plane, 3, 3, 2), plane.to_vec());
}

#[test]
fn slots_keep_frames_until_they_are_taken() {
    let mut cpu = DctCpu::new(Whole);
    let (r, g, b) = ([1i64, 2], [3i64, 4], [5i64, 6]);
    assert!(cpu.submit_rgb(0, &r, &g, &b, 2, 1, 2).is_ok());
    assert!(cpu.submit_rgb(1, &b, &r, &g, 2, 1, 2).is_ok());
    let Ok(RgbPlanes { r: r1, g: g1, b: b1 }) = cpu.finish_rgb(1) else { panic!("lost") };
    assert_eq!((r1, g1, b1), (vec![5, 6], vec![1, 2], vec![3, 4]));
    let Ok(first) = cpu.finish_rgb(0) else { panic!("lost") };
    assert_eq!((first.r, first.g, first.b), (vec![1, 2], vec![3, 4], vec![5, 6]));
    assert!(matches!(cpu.finish_rgb(0), Err(TransformError::NothingStashed)));
    assert!(matches!(cpu.finish_rgb(1), Err(TransformError::NothingStashed)));
}

#[test]
fn only_the_submitted_slot_finishes() {
    for slot in [0usize, 1] {
        let mut cpu = DctCpu::new(F32Math);
        let plane: Vec<f32> = (0..12).map(|i| (i * 20) as f32).collect();
        assert!(cpu.submit_rgb(slot, &plane, &plane, &plane, 4, 3, 1.0).is_ok());
        assert!(matches!(cpu.finish_rgb(1 - slot), Err(TransformError::NothingStashed)));
        assert!(matches!(cpu.finish_rgb(2), Err(TransformError::NoSuchSlot { slot: 2, .. })));
        let Ok(out) = cpu.finish_rgb(slot) else { panic!("nothing there") };
        let Ok(alone) = cpu.process_rgb(&plane, &plane, &plane, 4, 3, 1.0) else {
            panic!("refused")
        };
        assert_eq!((out.r, out.g, out.b), (alone.r, alone.g, alone.b));
        assert!(matches!(cpu.finish_rgb(slot), Err(TransformError::NothingStashed)));
    }
}

#[test]
fn a_slot_keeps_the_last_frame() {
    let mut cpu = DctCpu::new(Whole);
    assert!(cpu.submit_rgb(1, &[9], &[9], &[9], 1, 1, 0).is_ok());
    assert!(cpu.submit_rgb(0, &[1], &[2], &[3], 1, 1, 0).is_ok());
    assert!(cpu.submit_rgb(0, &[4], &[5], &[6], 1, 1, 0).is_ok());
    let Ok(kept) = cpu.finish_rgb(0) else { panic!("lost") };
    assert_eq!((kept.r, kept.g, kept.b), (vec![4], vec![5], vec![6]));
    let Ok(other) = cpu.finish_rgb(1) else { panic!("lost") };
    assert_eq!(other.r, vec![9]);
}

#[test]
fn backends_refuse_empty_frames_in_slots() {
    let mut cpu = DctCpu::new(Whole);
    let backend: &mut dyn DctBackend<Sample = i64, Cutoff = i64> = &mut cpu;
    assert!(matches!(
        backend.submit_rgb(0, &[], &[], &[], 0, 0, 0),
        Err(TransformError::ZeroDimension { width: 0, height: 0 })
    ));
    assert!(matches!(backend.finish_rgb(0), Err(TransformError::NothingStashed)));
}

#[test]
fn a_channel_comes_out_as_it_does_alone() {
    let mut cpu = DctCpu::new(F32Math);
    let plane = |seed: u32| -> Vec<f32> {
        (0..30u32).map(|i| ((i * seed + 3) % 256) as f32).collect()
    };
    let (r, g, b) = (plane(31), plane(57), plane(113));
    let Ok(frame) = cpu.process_rgb(&r, &g, &b, 6, 5, 0.7) else { panic!("refused") };
    // A fresh backend, and one that has seen other sizes and cutoffs, agree.
    let mut used = DctCpu::new(F32Math);
    assert!(used.process_plane(&r[..12], 4, 3, 1.5).is_ok());
    assert!(used.process_plane(&r, 6, 5, 0.1).is_ok());
    for (alone, whole) in [(&r, &frame.r), (&g, &frame.g), (&b, &frame.b)] {
        let Ok(fresh) = DctCpu::new(F32Math).process_plane(alone, 6, 5, 0.7) else {
            panic!("refused")
        };
        let Ok(again) = used.process_plane(alone, 6, 5, 0.7) else { panic!("refused") };
        assert_eq!(&fresh, whole);
        assert_eq!(&again, whole);
    }
}

#[test]
fn slot_errors_name_the_call() {
    let mut cpu = DctCpu::new(Whole);
    let Err(e) = cpu.submit_rgb(2, &[1], &[1], &[1], 1, 1, 0) else { panic!("taken") };
    assert!(matches!(e, TransformError::NoSuchSlot { call: SlotCall::Submit, slot: 2 }));
    assert_eq!(e.message(), "submit_rgb: frame_slot must be 0 or 1 (got 2)");
    let Err(e) = cpu.finish_rgb(7) else { panic!("taken") };
    assert_eq!(e.message(), "finish_rgb: frame_slot must be 0 or 1 (got 7)");
    let Err(e) = cpu.finish_rgb(0) else { panic!("taken") };
    assert_eq!(
        e.message(),
        "finish_rgb: no result stashed for this frame_slot - submit_rgb must be called first"
    );
    // A bad frame leaves the slot as it was.
    assert!(cpu.submit_rgb(0, &[1], &[2], &[3], 1, 1, 0).is_ok());
    assert!(matches!(
        cpu.submit_rgb(0, &[1], &[2, 2], &[3], 1, 1, 0),
        Err(TransformError::WrongLength { len: 2, expected: 1 })
    ));
    assert!(cpu.finish_rgb(0).is_ok());
}

/// A backend that computes whole frames only.
struct Plain;

impl DctBackend for Plain {
    type Sample = i64;
    type Cutoff = i64;

    fn process_rgb(
        &mut self,
        r: &[i64],
        g: &[i64],
        b: &[i64],
        _width: u32,
        _height: u32,
        _cutoff: i64,
    ) -> Result<RgbPlanes<i64>, TransformError> {
        Ok(RgbPlanes { r: r.to_vec(), g: g.to_vec(), b: b.to_vec() })
    }
}

#[test]
fn a_backend_without_slots_fails_to_finish() {
    let mut plain = Plain;
    assert!(plain.submit_rgb(0, &[1], &[1], &[1], 1, 1, 0).is_ok());
    let Err(e) = plain.finish_rgb(0) else { panic!("taken") };
    assert_eq!(
        e.message(),
        "finish_rgb: this DctBackend doesn't implement submit_rgb/finish_rgb pipelining"
    );
    let mut boxed: Box<dyn DctBackend<Sample = i64, Cutoff = i64>> = Box::new(DctCpu::new(Whole));
    let Ok(out) = boxed.process_rgb(&[9], &[8], &[7], 1, 1, 2) else { panic!("refused") };
    assert_eq!((out.r, out.g, out.b), (vec![9], vec![8], vec![7]));
}

#[test]
fn transposes_swap_rows_and_columns() {
    assert_eq!(transpose_square(&[1, 2, 3, 4], 2), vec![1, 3, 2, 4]);
    let square: Vec<i64> = (0..25).collect();
    assert_eq!(transpose_square(&transpose_square(&square, 5), 5), square);
    assert_eq!(transpose_rows(&[1, 2, 3, 4, 5, 6], 3, 2), vec![1, 4, 2, 5, 3, 6]);
    assert_eq!(transpose_rows(&transpose_rows(&[1, 2, 3, 4, 5, 6], 3, 2), 2, 3), vec![1, 2, 3, 4, 5, 6]);
    assert_eq!(dct_basis(&Whole, 3), vec![1, 0, 0, 0, 1, 0, 0, 0, 1]);
}
