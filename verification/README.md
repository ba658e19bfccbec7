# wavefold

Applies a VHS-like DCT "distortion" effect to video: every frame is decoded,
transformed as one whole picture by a DCT, cut off above a diagonal frequency,
transformed back, and encoded again, with its audio passed through.

The library (`src/`) is written in [Verus](https://github.com/verus-lang/verus):
its functions carry contracts that are proved. The program around it (`app/`) is
ordinary Rust: the command line, the GUI, the GPU device, and the media
frameworks.

## The library

| Module | What it holds |
|--------|---------------|
| `fft_plan`, `fft_stages` | Mixed-radix FFT: how lengths split, and the transform; DCT-II and DCT-III by FFT |
| `dct_math`, `cpu` | The DCT basis, the separable whole-frame transform with its cutoff, and the CPU backend |
| `gpu`, `fft_dispatch`, `fft_plane` | What the GPU backend takes, keeps and dispatches, and the whole-frame transform with either algorithm on each axis |
| `dct_backend`, `frames` | The interface of a compute backend, and two frames in flight on it |
| `planes` | Packed pixels to planes and back |
| `codec`, `encoders`, `media_backend`, `backends` | Codecs, and the rules of the GStreamer and Media Foundation backends |
| `pipeline`, `cli`, `ui` | What a run reports, what is printed, and the state of the GUI and its automation |

Theorems that relate several functions are the proof functions named `law_...`,
most of them in `plan_laws`, `fft_laws`, `dct_laws`, `dispatch_laws`,
`fft_plane_laws`, `basis_laws`, `one_result_laws`, `plane_laws`, `cosine_laws` and
`energy_laws`.

Arithmetic on samples is a parameter of the transforms (`SpectrumMath`,
`PlaneMath`). The contracts say which operations are done on which samples, in
which order, whatever the arithmetic is; the laws say what comes of it where the
arithmetic is exact. The program supplies `f32`.

## Supported output codecs

| Codec       | Software element | VAAPI hardware element |
|-------------|------------------|------------------------|
| H.264       | `x264enc`        | `vah264enc`            |
| H.265/HEVC  | `x265enc`        | `vah265enc`            |
| VP9         | `vp9enc`         | not available          |
| AV1         | `av1enc`         | `vaav1enc`             |

Software VP9 must go to `.mkv`, not `.mp4`.

## Run

```bash
wavefold        # GUI
wavefold gui    # the same
wavefold encode <in> <out> [--cutoff F] [--encoder ...] [--backend gpu|cpu]
```

With `WAVEFOLD_AUTOMATION` set in the environment, the GUI also listens on a
local port for JSON requests, one a line: `"snapshot"`, or
`{"inject": <message>}`.
