//! Where the bytes of a pixel go, and where they come from, by their positions.
use crate::dct_backend::RgbPlanes;
use crate::planes::PixelLayout;
use vstd::prelude::*;

verus! {

/// Taking an RGB frame apart: the red, green and blue samples of pixel `(x, y)`
/// are the widened bytes 0, 1 and 2 of the three that stand `3 * x` into row `y`,
/// wherever in the frame the pixel is.
pub proof fn law_rgb_bytes_become_samples<T: Copy + Send, F: Fn(u8) -> T + Sync>(
    widen: &F,
    data: &[u8],
    w: usize,
    h: usize,
    stride: usize,
    planes: RgbPlanes<T>,
    x: int,
    y: int,
)
    requires
        call_ensures(
            crate::planes::unpack_planes::<T, F>,
            (widen, data, PixelLayout::Rgb, w, h, stride),
            planes,
        ),
        0 <= x < w,
        0 <= y < h,
    ensures
        planes.r@.len() == w * h,
        planes.g@.len() == w * h,
        planes.b@.len() == w * h,
        call_ensures(*widen, (data@[y * stride + 3 * x],), planes.r@[y * w + x]),
        call_ensures(*widen, (data@[y * stride + 3 * x + 1],), planes.g@[y * w + x]),
        call_ensures(*widen, (data@[y * stride + 3 * x + 2],), planes.b@[y * w + x]),
{
    lemma_samples(widen, data, PixelLayout::Rgb, w, h, stride, planes, x, y);
    assert(x * 3 == 3 * x);
}

/// Taking a BGRA frame apart: the blue, green and red samples of pixel `(x, y)`
/// are the widened bytes 0, 1 and 2 of the four that stand `4 * x` into row `y`,
/// and the fourth is not used.
pub proof fn law_bgra_bytes_become_samples<T: Copy + Send, F: Fn(u8) -> T + Sync>(
    widen: &F,
    data: &[u8],
    w: usize,
    h: usize,
    stride: usize,
    planes: RgbPlanes<T>,
    x: int,
    y: int,
)
    requires
        call_ensures(
            crate::planes::unpack_planes::<T, F>,
            (widen, data, PixelLayout::Bgra, w, h, stride),
            planes,
        ),
        0 <= x < w,
        0 <= y < h,
    ensures
        planes.r@.len() == w * h,
        planes.g@.len() == w * h,
        planes.b@.len() == w * h,
        call_ensures(*widen, (data@[y * stride + 4 * x],), planes.b@[y * w + x]),
        call_ensures(*widen, (data@[y * stride + 4 * x + 1],), planes.g@[y * w + x]),
        call_ensures(*widen, (data@[y * stride + 4 * x + 2],), planes.r@[y * w + x]),
{
    lemma_samples(widen, data, PixelLayout::Bgra, w, h, stride, planes, x, y);
    assert(x * 4 == 4 * x);
}

/// The three samples of one pixel.
proof fn lemma_samples<T: Copy + Send, F: Fn(u8) -> T + Sync>(
    widen: &F,
    data: &[u8],
    layout: PixelLayout,
    w: usize,
    h: usize,
    stride: usize,
    planes: RgbPlanes<T>,
    x: int,
    y: int,
)
    requires
        call_ensures(
            crate::planes::unpack_planes::<T, F>,
            (widen, data, layout, w, h, stride),
            planes,
        ),
        0 <= x < w,
        0 <= y < h,
    ensures
        forall|c: crate::planes::Channel|
            #![trigger crate::planes::plane_of(planes, c)]
            {
                &&& crate::planes::plane_of(planes, c).len() == w * h
                &&& crate::planes::sample_widened(
                    *widen,
                    data@,
                    layout,
                    stride as int,
                    x,
                    y,
                    c,
                    crate::planes::plane_of(planes, c)[y * w + x],
                )
            },
        planes.r@ == crate::planes::plane_of(planes, crate::planes::Channel::Red),
        planes.g@ == crate::planes::plane_of(planes, crate::planes::Channel::Green),
        planes.b@ == crate::planes::plane_of(planes, crate::planes::Channel::Blue),
{
    assert(crate::planes::unpacked(
        *widen,
        data@,
        layout,
        w as int,
        h as int,
        stride as int,
        planes,
    ));
}

/// Putting an RGB frame together: the three bytes that stand `3 * x` into row `y`
/// are the quantized red, green and blue samples of pixel `(x, y)`, in this
/// order; what is left of a row is zero.
pub proof fn law_samples_become_rgb_bytes<T: Copy + Sync, F: Fn(T) -> u8 + Sync>(
    quantize: &F,
    r: &[T],
    g: &[T],
    b: &[T],
    w: usize,
    h: usize,
    stride: usize,
    out: Vec<u8>,
    x: int,
    y: int,
    i: int,
)
    requires
        call_ensures(
            crate::planes::pack_planes::<T, F>,
            (quantize, r, g, b, PixelLayout::Rgb, w, h, stride),
            out,
        ),
        0 <= x < w,
        0 <= y < h,
    ensures
        out@.len() == stride * h,
        call_ensures(*quantize, (r@[y * w + x],), out@[y * stride + 3 * x]),
        call_ensures(*quantize, (g@[y * w + x],), out@[y * stride + 3 * x + 1]),
        call_ensures(*quantize, (b@[y * w + x],), out@[y * stride + 3 * x + 2]),
        3 * w <= i < stride ==> out@[y * stride + i] == 0,
{
    let planes = seq![r@, g@, b@];
    assert(crate::planes::packed(
        *quantize,
        planes,
        PixelLayout::Rgb,
        w as int,
        h as int,
        stride as int,
        out@,
    ));
    assert(crate::planes::pixel_packed(
        *quantize,
        planes,
        PixelLayout::Rgb,
        w as int,
        stride as int,
        x,
        y,
        out@,
    ));
    assert(x * 3 == 3 * x);
    if 3 * w <= i < stride {
        assert(crate::planes::padding(out@, stride as int, y, i));
    }
}

/// Putting a BGRA frame together: the four bytes that stand `4 * x` into row `y`
/// are the quantized blue, green and red samples of pixel `(x, y)`, in this
/// order, and an opaque alpha; what is left of a row is zero.
pub proof fn law_samples_become_bgra_bytes<T: Copy + Sync, F: Fn(T) -> u8 + Sync>(
    quantize: &F,
    r: &[T],
    g: &[T],
    b: &[T],
    w: usize,
    h: usize,
    stride: usize,
    out: Vec<u8>,
    x: int,
    y: int,
    i: int,
)
    requires
        call_ensures(
            crate::planes::pack_planes::<T, F>,
            (quantize, r, g, b, PixelLayout::Bgra, w, h, stride),
            out,
        ),
        0 <= x < w,
        0 <= y < h,
    ensures
        out@.len() == stride * h,
        call_ensures(*quantize, (b@[y * w + x],), out@[y * stride + 4 * x]),
        call_ensures(*quantize, (g@[y * w + x],), out@[y * stride + 4 * x + 1]),
        call_ensures(*quantize, (r@[y * w + x],), out@[y * stride + 4 * x + 2]),
        out@[y * stride + 4 * x + 3] == 255,
        4 * w <= i < stride ==> out@[y * stride + i] == 0,
{
    let planes = seq![r@, g@, b@];
    assert(crate::planes::packed(
        *quantize,
        planes,
        PixelLayout::Bgra,
        w as int,
        h as int,
        stride as int,
        out@,
    ));
    assert(crate::planes::pixel_packed(
        *quantize,
        planes,
        PixelLayout::Bgra,
        w as int,
        stride as int,
        x,
        y,
        out@,
    ));
    assert(x * 4 == 4 * x);
    if 4 * w <= i < stride {
        assert(crate::planes::padding(out@, stride as int, y, i));
    }
}

/// Byte `i` of row `y` comes from the same byte of the same row where rows run
/// downwards, and of the row as far from the bottom where they run upwards, which
/// a negative distance from row to row means.
pub proof fn law_rows_come_out_top_first(
    data: &[u8],
    pitch: i32,
    h: usize,
    out: Vec<u8>,
    y: int,
    i: int,
)
    requires
        call_ensures(crate::planes::top_down, (data, pitch, h), out),
        0 <= y < h,
        0 <= i < pitch || 0 <= i < -pitch,
    ensures
        pitch > 0 ==> out@.len() == pitch * h && out@[y * pitch + i] == data@[y * pitch + i],
        pitch < 0 ==> out@.len() == -pitch * h && out@[y * -pitch + i] == data@[(h - 1 - y) * -pitch
            + i],
{
    let rb: int = if pitch < 0 {
        -pitch
    } else {
        pitch as int
    };
    crate::arith::lemma_cell_bound(y, i, h as int, rb);
    assert(h * rb == rb * h) by (nonlinear_arith);
    assert(0 <= y * rb) by (nonlinear_arith)
        requires
            0 <= y,
            0 <= rb,
    ;
    crate::arith::lemma_div_mod_of(y * rb + i, rb, y, i);
    assert(out@ == crate::planes::top_down_rows(data@, pitch as int, h as int));
}

} // verus!
