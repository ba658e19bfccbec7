//! Whole-frame DCT distortion for video.
use vstd::prelude::*;

pub mod arith;
pub mod backends;
pub mod basis_laws;
pub mod choice_laws;
pub mod cli;
pub mod codec;
pub mod cosine_laws;
pub mod cpu;
pub mod dct_backend;
pub mod dct_laws;
pub mod dct_math;
pub mod dispatch_laws;
pub mod encoders;
pub mod energy_laws;
pub mod fft_block_laws;
pub mod fft_dispatch;
pub mod fft_laws;
pub mod fft_plan;
pub mod fft_plane;
pub mod fft_plane_laws;
pub mod fft_stages;
pub mod frame_laws;
pub mod frames;
pub mod gpu;
pub mod gpu_laws;
pub mod matrix_laws;
pub mod media_backend;
pub mod one_result_laws;
pub mod parallel;
pub mod picture_laws;
pub mod pipeline;
pub mod pixel_laws;
pub mod plan_laws;
pub mod plane_laws;
pub mod planes;
pub mod report_laws;
pub mod sums;
pub mod text;
pub mod text_laws;
pub mod transform_laws;
pub mod ui;

verus! {

} // verus!
