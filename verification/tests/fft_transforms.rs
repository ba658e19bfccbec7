use rustfft::num_complex::Complex32;
use rustfft::FftPlanner;
use std::f32::consts::PI;
use wavefold::cpu::DctCpu;
use wavefold::dct_backend::TransformError;
use wavefold::dct_math::{dct_basis, PlaneMath};
use wavefold::fft_plan::{factor_mixed_radix, fft_eligible};
use wavefold::fft_plane::{plane_by_axes, AxisTransform};
use wavefold::fft_stages::{dct2_via_fft, dct3_via_fft, fft_mixed_radix, SpectrumMath};

#[derive(Clone, Copy, Debug, PartialEq)]
struct C32 {
    re: f32,
    im: f32,
}

impl C32 {
    fn new(re: f32, im: f32) -> Self {
        Self { re, im }
    }

    fn mul(self, o: Self) -> Self {
        Self::new(self.re * o.re - self.im * o.im, self.re * o.im + self.im * o.re)
    }
}

struct F32Math;

fn alpha(k: usize, n: usize) -> f32 {
    if k == 0 {
        (1.0 / n as f32).sqrt()
    } else {
        (2.0 / n as f32).sqrt()
    }
}

impl SpectrumMath for F32Math {
    type Real = f32;
    type Complex = C32;

    fn zero(&self) -> C32 {
        C32::new(0.0, 0.0)
    }

    fn plus(&self, a: C32, b: C32) -> C32 {
        C32::new(a.re + b.re, a.im + b.im)
    }

    fn turned(&self, v: C32, a: usize, b: usize, den: usize, inverse: bool) -> C32 {
        let sign = if inverse { 1.0 } else { -1.0 };
        let angle = sign * 2.0 * PI * (a as f32) * (b as f32) / (den as f32);
        v.mul(C32::new(angle.cos(), angle.sin()))
    }

    fn lifted(&self, x: f32) -> C32 {
        C32::new(x, 0.0)
    }

    fn cosine_part(&self, v: C32, k: usize, n: usize) -> f32 {
        let angle = -PI * (k as f32) / (2.0 * n as f32);
        2.0 * v.mul(C32::new(angle.cos(), angle.sin())).re
    }

    fn normalized(&self, u: f32, k: usize, n: usize) -> f32 {
        u * alpha(k, n) / 2.0
    }

    fn unnormalized(&self, f: f32, k: usize, n: usize) -> f32 {
        f * 2.0 / alpha(k, n)
    }

    fn first_bin(&self, u: f32) -> C32 {
        C32::new(u / 2.0, 0.0)
    }

    fn middle_bin(&self, u: f32) -> C32 {
        C32::new(u / std::f32::consts::SQRT_2, 0.0)
    }

    fn paired_bin(&self, u: f32, t: f32, k: usize, n: usize) -> C32 {
        let theta = -PI * (k as f32) / (2.0 * n as f32);
        let vk = C32::new(u, -t).mul(C32::new(theta.cos(), -theta.sin()));
        C32::new(vk.re / 2.0, vk.im / 2.0)
    }

    fn mirrored(&self, v: C32) -> C32 {
        C32::new(v.re, -v.im)
    }

    fn sample(&self, v: C32, n: usize) -> f32 {
        v.re * (1.0 / n as f32)
    }
}

impl PlaneMath for F32Math {
    type Sample = f32;
    type Cutoff = f32;
    type Threshold = f32;

    fn zero(&self) -> f32 {
        0.0
    }

    fn multiply_add(&self, acc: f32, s: f32, c: f32) -> f32 {
        acc + s * c
    }

    fn basis_entry(&self, k: usize, i: usize, n: usize) -> f32 {
        alpha(k, n) * ((PI / n as f32) * (i as f32 + 0.5) * k as f32).cos()
    }

    fn threshold(&self, cutoff: f32) -> f32 {
        cutoff.clamp(0.0, 2.0) + f32::EPSILON
    }

    fn beyond(&self, threshold: f32, x: usize, denom_x: usize, y: usize, denom_y: usize) -> bool {
        x as f32 / denom_x as f32 + y as f32 / denom_y as f32 > threshold
    }

    fn pixel(&self, v: f32) -> f32 {
        v.clamp(0.0, 255.0)
    }
}

fn lcg(seed: &mut u64) -> f32 {
    *seed = seed.wrapping_mul(6364136223846793005).wrapping_add(1442695040888963407);
    ((*seed >> 33) as u32 as f32 / u32::MAX as f32) * 2.0 - 1.0
}

fn random_signal(n: usize, seed: &mut u64) -> Vec<C32> {
    (0..n).map(|_| C32::new(lcg(seed), lcg(seed))).collect()
}

#[test]
fn forward_fft_matches_rustfft() {
    let mut seed = 12345u64;
    for &n in &[16usize, 24, 60, 210] {
        let factors = factor_mixed_radix(n).unwrap();
        let signal = random_signal(n, &mut seed);

        let mut ours = signal.clone();
        fft_mixed_radix(&F32Math, &mut ours, &factors, false);

        let mut reference: Vec<Complex32> =
            signal.iter().map(|c| Complex32::new(c.re, c.im)).collect();
        let mut planner = FftPlanner::new();
        planner.plan_fft_forward(n).process(&mut reference);

        for (i, (o, r)) in ours.iter().zip(reference.iter()).enumerate() {
            assert!(
                (o.re - r.re).abs() < 1e-2 && (o.im - r.im).abs() < 1e-2,
                "n={n} index {i}: ours={o:?} rustfft={r:?}"
            );
        }
    }
}

#[test]
fn inverse_fft_matches_rustfft() {
    let mut seed = 999u64;
    for &n in &[16usize, 24, 60, 210] {
        let factors = factor_mixed_radix(n).unwrap();
        let signal = random_signal(n, &mut seed);

        let mut ours = signal.clone();
        fft_mixed_radix(&F32Math, &mut ours, &factors, true);

        let mut reference: Vec<Complex32> =
            signal.iter().map(|c| Complex32::new(c.re, c.im)).collect();
        let mut planner = FftPlanner::new();
        planner.plan_fft_inverse(n).process(&mut reference);

        for (i, (o, r)) in ours.iter().zip(reference.iter()).enumerate() {
            assert!(
                (o.re - r.re).abs() < 1e-2 && (o.im - r.im).abs() < 1e-2,
                "n={n} index {i}: ours={o:?} rustfft={r:?}"
            );
        }
    }
}

#[test]
fn forward_then_inverse_recovers_original_scaled_by_n() {
    let mut seed = 42u64;
    for &n in &[16usize, 24, 60, 210] {
        let factors = factor_mixed_radix(n).unwrap();
        let signal = random_signal(n, &mut seed);

        let mut roundtrip = signal.clone();
        fft_mixed_radix(&F32Math, &mut roundtrip, &factors, false);
        fft_mixed_radix(&F32Math, &mut roundtrip, &factors, true);

        for (i, (orig, rt)) in signal.iter().zip(roundtrip.iter()).enumerate() {
            let expected = C32::new(orig.re * n as f32, orig.im * n as f32);
            assert!(
                (rt.re - expected.re).abs() < 1e-1 && (rt.im - expected.im).abs() < 1e-1,
                "n={n} index {i}: roundtrip={rt:?} expected={expected:?}"
            );
        }
    }
}

fn dct_basis_matmul(x: &[f32], basis: &[f32], n: usize) -> Vec<f32> {
    (0..n).map(|k| (0..n).map(|i| x[i] * basis[k * n + i]).sum()).collect()
}

#[test]
fn dct2_via_fft_matches_dct_basis_matmul() {
    let mut seed = 2024u64;
    for &n in &[16usize, 24, 60, 210] {
        let factors = factor_mixed_radix(n).unwrap();
        let x: Vec<f32> = (0..n).map(|_| lcg(&mut seed)).collect();
        let basis = dct_basis(&F32Math, n);

        let expected = dct_basis_matmul(&x, &basis, n);
        let got = dct2_via_fft(&F32Math, &x, &factors);

        for (k, (g, e)) in got.iter().zip(expected.iter()).enumerate() {
            assert!((g - e).abs() < 1e-2, "n={n} k={k}: got={g} expected={e}");
        }
    }
}

fn dct_basis_transpose_matmul(y: &[f32], basis: &[f32], n: usize) -> Vec<f32> {
    (0..n).map(|pos| (0..n).map(|k| y[k] * basis[k * n + pos]).sum()).collect()
}

#[test]
fn dct3_via_fft_matches_dct_basis_transpose_matmul() {
    // Arbitrary bins, not those of some signal: a round trip alone could hide
    // errors that cancel out.
    let mut seed = 4096u64;
    for &n in &[16usize, 24, 60, 210] {
        let factors = factor_mixed_radix(n).unwrap();
        let y: Vec<f32> = (0..n).map(|_| lcg(&mut seed)).collect();
        let basis = dct_basis(&F32Math, n);

        let expected = dct_basis_transpose_matmul(&y, &basis, n);
        let got = dct3_via_fft(&F32Math, &y, &factors);

        for (i, (g, e)) in got.iter().zip(expected.iter()).enumerate() {
            assert!((g - e).abs() < 1e-2, "n={n} i={i}: got={g} expected={e}");
        }
    }
}

#[test]
fn dct3_inverts_dct2_exactly() {
    let mut seed = 8192u64;
    for &n in &[16usize, 24, 60, 210] {
        let factors = factor_mixed_radix(n).unwrap();
        let x: Vec<f32> = (0..n).map(|_| lcg(&mut seed)).collect();

        let f = dct2_via_fft(&F32Math, &x, &factors);
        let roundtrip = dct3_via_fft(&F32Math, &f, &factors);

        for (i, (o, r)) in x.iter().zip(roundtrip.iter()).enumerate() {
            assert!((o - r).abs() < 1e-2, "n={n} i={i}: orig={o} roundtrip={r}");
        }
    }
}

#[test]
fn dct_basis_rows_are_orthonormal() {
    for n in [8usize, 13, 32] {
        let b = dct_basis(&F32Math, n);
        for k in 0..n {
            for j in 0..n {
                let dot: f32 = (0..n).map(|i| b[k * n + i] * b[j * n + i]).sum();
                let expected = if k == j { 1.0 } else { 0.0 };
                assert!(
                    (dot - expected).abs() < 1e-3,
                    "n={n} basis rows {k},{j} not orthonormal: dot={dot}"
                );
            }
        }
    }
}

/// Arithmetic modulo 211, where 2 has order 210: an exact stand-in for complex
/// numbers whose `den`-th roots of unity are powers of it.
struct Mod211;

const P: u64 = 211;

fn power(base: u64, exp: u64) -> u64 {
    (0..exp).fold(1, |acc, _| acc * base % P)
}

impl SpectrumMath for Mod211 {
    type Real = u64;
    type Complex = u64;

    fn zero(&self) -> u64 {
        0
    }

    fn plus(&self, a: u64, b: u64) -> u64 {
        (a + b) % P
    }

    fn turned(&self, v: u64, a: usize, b: usize, den: usize, inverse: bool) -> u64 {
        let steps = (a * b * (210 / den)) as u64 % 210;
        let steps = if inverse { (210 - steps) % 210 } else { steps };
        v * power(2, steps) % P
    }

    fn lifted(&self, x: u64) -> u64 {
        x
    }

    fn cosine_part(&self, v: u64, _k: usize, _n: usize) -> u64 {
        v
    }

    fn normalized(&self, u: u64, _k: usize, _n: usize) -> u64 {
        u
    }

    fn unnormalized(&self, f: u64, _k: usize, _n: usize) -> u64 {
        f
    }

    fn first_bin(&self, u: u64) -> u64 {
        u
    }

    fn middle_bin(&self, u: u64) -> u64 {
        u
    }

    fn paired_bin(&self, u: u64, t: u64, _k: usize, _n: usize) -> u64 {
        (u + t) % P
    }

    fn mirrored(&self, v: u64) -> u64 {
        v
    }

    fn sample(&self, v: u64, _n: usize) -> u64 {
        v
    }
}

#[test]
fn exact_arithmetic_gives_the_exact_transform() {
    for n in [2usize, 3, 5, 6, 7, 10, 14, 15, 30, 42, 70, 105, 210] {
        let factors = factor_mixed_radix(n).unwrap();
        let x: Vec<u64> = (0..n as u64).map(|i| (i * i * 31 + 7 * i + 5) % P).collect();
        let w = power(2, 210 / n as u64);
        let direct: Vec<u64> = (0..n)
            .map(|k| (0..n).fold(0, |acc, i| (acc + x[i] * power(w, (i * k % n) as u64)) % P))
            .collect();
        let mut ours = x.clone();
        fft_mixed_radix(&Mod211, &mut ours, &factors, false);
        assert_eq!(ours, direct, "n={n}");

        fft_mixed_radix(&Mod211, &mut ours, &factors, true);
        let scaled: Vec<u64> = x.iter().map(|v| v * n as u64 % P).collect();
        assert_eq!(ours, scaled, "n={n}");
    }
}

#[test]
fn a_single_element_is_its_own_transform() {
    let mut one = [C32::new(3.0, -4.0)];
    fft_mixed_radix(&F32Math, &mut one, &[], false);
    assert_eq!(one[0], C32::new(3.0, -4.0));
}

#[test]
fn the_smallest_dct_has_two_samples() {
    let f = dct2_via_fft(&F32Math, &[1.0, 3.0], &[2]);
    assert!((f[0] - 4.0 / 2f32.sqrt()).abs() < 1e-5);
    assert!((f[1] + 2.0 / 2f32.sqrt()).abs() < 1e-5);
    let x = dct3_via_fft(&F32Math, &f, &[2]);
    assert!((x[0] - 1.0).abs() < 1e-5 && (x[1] - 3.0).abs() < 1e-5);
}

/// Runs batches on this machine; `short` drops an element of what it returns.
struct Batches {
    fail: bool,
    short: bool,
}

impl Batches {
    fn run(
        &self,
        x: &[f32],
        n: usize,
        batch: usize,
        one: impl Fn(&[f32]) -> Vec<f32>,
    ) -> Result<Vec<f32>, TransformError> {
        assert_eq!(x.len(), n * batch);
        if self.fail {
            return Err(TransformError::Device("device lost".to_string()));
        }
        let mut out: Vec<f32> = x.chunks(n).flat_map(one).collect();
        if self.short {
            out.pop();
        }
        Ok(out)
    }
}

impl AxisTransform for Batches {
    type Sample = f32;

    fn dct2(
        &self,
        x: &[f32],
        n: usize,
        factors: Option<&[usize]>,
        batch: usize,
    ) -> Result<Vec<f32>, TransformError> {
        self.run(x, n, batch, |row| match factors {
            Some(f) => dct2_via_fft(&F32Math, row, f),
            None => dct_basis_matmul(row, &dct_basis(&F32Math, n), n),
        })
    }

    fn dct3(
        &self,
        x: &[f32],
        n: usize,
        factors: Option<&[usize]>,
        batch: usize,
    ) -> Result<Vec<f32>, TransformError> {
        self.run(x, n, batch, |row| match factors {
            Some(f) => dct3_via_fft(&F32Math, row, f),
            None => dct_basis_transpose_matmul(row, &dct_basis(&F32Math, n), n),
        })
    }
}

#[test]
fn fast_transforms_give_the_picture_of_the_matrices() {
    for (w, h) in [(24usize, 18usize), (16, 10), (2, 2), (24, 11), (13, 18), (3, 11)] {
        let plane: Vec<f32> = (0..w * h).map(|i| ((i * 37 + 11) % 256) as f32).collect();
        let (rows, cols) = (fft_eligible(w), fft_eligible(h));
        for cutoff in [0.3f32, 0.7, 2.0] {
            let device = Batches { fail: false, short: false };
            let (r, c) = (rows.as_deref(), cols.as_deref());
            let Ok(fast) = plane_by_axes(&F32Math, &device, &plane, w, h, r, c, cutoff) else {
                panic!("failed")
            };
            let mut cpu = DctCpu::new(F32Math);
            let Ok(slow) = cpu.process_plane(&plane, w as u32, h as u32, cutoff) else {
                panic!("refused")
            };
            assert_eq!(fast.len(), slow.len());
            for (a, b) in fast.iter().zip(slow.iter()) {
                assert!((a - b).abs() < 0.1, "{w}x{h} at {cutoff}: {a} vs {b}");
            }
        }
    }
}

#[test]
fn a_batch_that_fails_ends_the_plane() {
    let plane = vec![7.0f32; 8];
    let run = |fail: bool, short: bool| {
        let device = Batches { fail, short };
        plane_by_axes(&F32Math, &device, &plane, 4, 2, Some(&[2, 2]), Some(&[2]), 2.0)
    };
    let Err(e) = run(true, false) else { panic!("taken") };
    assert_eq!(e.message(), "device lost");
    let Err(e) = run(false, true) else { panic!("taken") };
    assert!(matches!(e, TransformError::WrongLength { len: 7, expected: 8 }));
    let Ok(out) = run(false, false) else { panic!("failed") };
    assert!(out.iter().all(|v| (v - 7.0).abs() < 0.001));
}
