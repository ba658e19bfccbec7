//! Packed pixels taken apart into color planes, and put together again.
use crate::dct_backend::RgbPlanes;
use crate::parallel::{joined_rows, par_map};
use vstd::prelude::*;

verus! {

/// How the bytes of a pixel follow each other.
#[derive(Debug, Clone, Copy, PartialEq, Eq, Structural)]
pub enum PixelLayout {
    /// Red, green, blue.
    Rgb,
    /// Blue, green, red, and an alpha that is always opaque.
    Bgra,
}

/// A color channel.
#[derive(Debug, Clone, Copy, PartialEq, Eq, Structural)]
pub enum Channel {
    Red,
    Green,
    Blue,
}

impl PixelLayout {
    /// The bytes of a pixel.
    pub open spec fn step(self) -> int {
        match self {
            PixelLayout::Rgb => 3,
            PixelLayout::Bgra => 4,
        }
    }

    /// Where in a pixel a channel stands.
    pub open spec fn offset(self, channel: Channel) -> int {
        match (self, channel) {
            (PixelLayout::Rgb, Channel::Red) => 0,
            (PixelLayout::Bgra, Channel::Red) => 2,
            (_, Channel::Green) => 1,
            (PixelLayout::Rgb, Channel::Blue) => 2,
            (PixelLayout::Bgra, Channel::Blue) => 0,
        }
    }

    /// The bytes of a pixel.
    pub fn pixel_bytes(self) -> (r: usize)
        ensures
            r == self.step(),
    {
        match self {
            PixelLayout::Rgb => 3,
            PixelLayout::Bgra => 4,
        }
    }
}

/// Where the byte of a channel of pixel `(x, y)` stands.
pub open spec fn byte_at(layout: PixelLayout, stride: int, x: int, y: int, channel: Channel) -> int {
    y * stride + x * layout.step() + layout.offset(channel)
}

/// Whether `len` bytes hold `h` rows of `w` pixels, `stride` bytes from one row
/// to the next. The last row need not be padded.
pub open spec fn rows_fit(len: int, layout: PixelLayout, w: int, h: int, stride: int) -> bool {
    h > 0 ==> (h - 1) * stride + w * layout.step() <= len
}

/// The plane of one channel.
pub open spec fn plane_of<T>(planes: RgbPlanes<T>, channel: Channel) -> Seq<T> {
    match channel {
        Channel::Red => planes.r@,
        Channel::Green => planes.g@,
        Channel::Blue => planes.b@,
    }
}

/// Sample `(x, y)` of a channel is its byte, widened.
pub open spec fn sample_widened<T, F: Fn(u8) -> T>(
    widen: F,
    data: Seq<u8>,
    layout: PixelLayout,
    stride: int,
    x: int,
    y: int,
    channel: Channel,
    out: T,
) -> bool {
    call_ensures(widen, (data[byte_at(layout, stride, x, y, channel)],), out)
}

/// `planes` holds the pixels of `data`, every byte widened to a sample.
pub open spec fn unpacked<T, F: Fn(u8) -> T>(
    widen: F,
    data: Seq<u8>,
    layout: PixelLayout,
    w: int,
    h: int,
    stride: int,
    planes: RgbPlanes<T>,
) -> bool {
    &&& forall|c: Channel| #[trigger] plane_of(planes, c).len() == w * h
    &&& forall|c: Channel, x: int, y: int|
        0 <= x < w && 0 <= y < h ==> #[trigger] sample_widened(
            widen,
            data,
            layout,
            stride,
            x,
            y,
            c,
            plane_of(planes, c)[y * w + x],
        )
}

/// One row of one channel.
spec fn row_widened<T, F: Fn(u8) -> T>(
    widen: F,
    data: Seq<u8>,
    layout: PixelLayout,
    stride: int,
    w: int,
    y: int,
    channel: Channel,
    row: Seq<T>,
) -> bool {
    &&& row.len() == w
    &&& forall|x: int|
        0 <= x < w ==> #[trigger] sample_widened(
            widen,
            data,
            layout,
            stride,
            x,
            y,
            channel,
            row[x],
        )
}

/// Reads one row of one channel.
fn widen_row<T, F: Fn(u8) -> T>(
    widen: &F,
    data: &[u8],
    layout: PixelLayout,
    stride: usize,
    w: usize,
    y: usize,
    channel: Channel,
) -> (row: Vec<T>)
    requires
        y * stride + w * layout.step() <= data@.len(),
        forall|b: u8| call_requires(widen, (b,)),
    ensures
        row_widened(*widen, data@, layout, stride as int, w as int, y as int, channel, row@),
{
    let len: usize = data.len();
    let step: usize = layout.pixel_bytes();
    let offset: usize = match (layout, channel) {
        (PixelLayout::Rgb, Channel::Red) => 0,
        (PixelLayout::Bgra, Channel::Red) => 2,
        (_, Channel::Green) => 1,
        (PixelLayout::Rgb, Channel::Blue) => 2,
        (PixelLayout::Bgra, Channel::Blue) => 0,
    };
    let mut row: Vec<T> = Vec::with_capacity(w);
    let mut x: usize = 0;
    assert(0 <= y * stride) by (nonlinear_arith);
    while x < w
        invariant
            x <= w,
            len == data@.len(),
            step == layout.step(),
            offset == layout.offset(channel),
            0 <= y * stride,
            y * stride + w * layout.step() <= len,
            forall|b: u8| call_requires(widen, (b,)),
            row@.len() == x,
            forall|t: int|
                0 <= t < x ==> #[trigger] sample_widened(
                    *widen,
                    data@,
                    layout,
                    stride as int,
                    t,
                    y as int,
                    channel,
                    row@[t],
                ),
        decreases w - x,
    {
        assert(0 <= x * step && x * step + step <= w * step) by (nonlinear_arith)
            requires
                x < w,
                0 <= step,
        ;
        let b: u8 = data[y * stride + x * step + offset];
        let t = widen(b);
        assert(sample_widened(
            *widen,
            data@,
            layout,
            stride as int,
            x as int,
            y as int,
            channel,
            t,
        ));
        row.push(t);
        x = x + 1;
    }
    row
}

/// The last row bounds every row.
proof fn lemma_row_fits(len: int, layout: PixelLayout, w: int, h: int, stride: int, y: int)
    requires
        rows_fit(len, layout, w, h, stride),
        0 <= y < h,
        0 <= stride,
    ensures
        y * stride + w * layout.step() <= len,
{
    assert(y * stride <= (h - 1) * stride) by (nonlinear_arith)
        requires
            y <= h - 1,
            0 <= stride,
    ;
}

/// One channel of packed pixels as a plane.
fn channel_plane<T: Copy + Send, F: Fn(u8) -> T + Sync>(
    widen: &F,
    data: &[u8],
    layout: PixelLayout,
    w: usize,
    h: usize,
    stride: usize,
    channel: Channel,
) -> (plane: Vec<T>)
    requires
        w * h <= usize::MAX,
        rows_fit(data@.len() as int, layout, w as int, h as int, stride as int),
        forall|b: u8| call_requires(widen, (b,)),
    ensures
        plane@.len() == w * h,
        forall|x: int, y: int|
            0 <= x < w && 0 <= y < h ==> #[trigger] sample_widened(
                *widen,
                data@,
                layout,
                stride as int,
                x,
                y,
                channel,
                plane@[y * w + x],
            ),
{
    let per_row = |y: usize| -> (row: Vec<T>)
        requires
            y < h,
        ensures
            row_widened(*widen, data@, layout, stride as int, w as int, y as int, channel, row@),
        {
            proof {
                lemma_row_fits(
                    data@.len() as int,
                    layout,
                    w as int,
                    h as int,
                    stride as int,
                    y as int,
                );
            }
            widen_row(widen, data, layout, stride, w, y, channel)
        };
    let rows: Vec<Vec<T>> = par_map(h, per_row);
    proof {
        assert forall|y: int| 0 <= y < h implies #[trigger] rows@[y]@.len() == w by {
            let k = y as usize;
            assert(call_ensures(per_row, (k,), rows@[k as int]));
        }
    }
    let plane = joined_rows(&rows, w);
    proof {
        assert forall|x: int, y: int| 0 <= x < w && 0 <= y < h implies #[trigger] sample_widened(
            *widen,
            data@,
            layout,
            stride as int,
            x,
            y,
            channel,
            plane@[y * w + x],
        ) by {
            let k = y as usize;
            assert(call_ensures(per_row, (k,), rows@[k as int]));
            assert(row_widened(
                *widen,
                data@,
                layout,
                stride as int,
                w as int,
                y,
                channel,
                rows@[y]@,
            ));
            assert(plane@[y * w + x] == rows@[y]@[x]);
        }
    }
    plane
}

/// Takes packed pixels apart into three planes, row by row; the bytes that pad a
/// row are skipped.
pub fn unpack_planes<T: Copy + Send, F: Fn(u8) -> T + Sync>(
    widen: &F,
    data: &[u8],
    layout: PixelLayout,
    w: usize,
    h: usize,
    stride: usize,
) -> (planes: RgbPlanes<T>)
    requires
        w * h <= usize::MAX,
        rows_fit(data@.len() as int, layout, w as int, h as int, stride as int),
        forall|b: u8| call_requires(widen, (b,)),
    ensures
        unpacked(*widen, data@, layout, w as int, h as int, stride as int, planes),
{
    let r = channel_plane(widen, data, layout, w, h, stride, Channel::Red);
    let g = channel_plane(widen, data, layout, w, h, stride, Channel::Green);
    let b = channel_plane(widen, data, layout, w, h, stride, Channel::Blue);
    RgbPlanes { r, g, b }
}

/// Every byte of pixel `(x, y)` is as its samples ask, and an alpha is opaque.
pub open spec fn pixel_packed<T, F: Fn(T) -> u8>(
    quantize: F,
    planes: Seq<Seq<T>>,
    layout: PixelLayout,
    w: int,
    stride: int,
    x: int,
    y: int,
    out: Seq<u8>,
) -> bool {
    let i = y * w + x;
    &&& call_ensures(
        quantize,
        (planes[0][i],),
        out[byte_at(layout, stride, x, y, Channel::Red)],
    )
    &&& call_ensures(
        quantize,
        (planes[1][i],),
        out[byte_at(layout, stride, x, y, Channel::Green)],
    )
    &&& call_ensures(
        quantize,
        (planes[2][i],),
        out[byte_at(layout, stride, x, y, Channel::Blue)],
    )
    &&& layout == PixelLayout::Bgra ==> out[y * stride + x * 4 + 3] == 255
}

/// `out` holds the planes as packed pixels, every sample quantized to a byte,
/// and zeros behind each row up to the stride.
pub open spec fn packed<T, F: Fn(T) -> u8>(
    quantize: F,
    planes: Seq<Seq<T>>,
    layout: PixelLayout,
    w: int,
    h: int,
    stride: int,
    out: Seq<u8>,
) -> bool {
    &&& out.len() == stride * h
    &&& forall|x: int, y: int|
        0 <= x < w && 0 <= y < h ==> #[trigger] pixel_packed(
            quantize,
            planes,
            layout,
            w,
            stride,
            x,
            y,
            out,
        )
    &&& forall|y: int, i: int|
        0 <= y < h && w * layout.step() <= i < stride ==> #[trigger] padding(out, stride, y, i)
}

/// Byte `i` of row `y` is zero.
pub open spec fn padding(out: Seq<u8>, stride: int, y: int, i: int) -> bool {
    out[y * stride + i] == 0
}

/// One row, packed: pixel `x` starts at byte `x * step`.
spec fn row_packed<T, F: Fn(T) -> u8>(
    quantize: F,
    planes: Seq<Seq<T>>,
    layout: PixelLayout,
    w: int,
    stride: int,
    y: int,
    row: Seq<u8>,
) -> bool {
    &&& row.len() == stride
    &&& forall|x: int| 0 <= x < w ==> #[trigger] row_pixel(quantize, planes, layout, w, y, x, row)
    &&& forall|i: int| w * layout.step() <= i < stride ==> #[trigger] row[i] == 0
}

/// Pixel `x` of one packed row.
spec fn row_pixel<T, F: Fn(T) -> u8>(
    quantize: F,
    planes: Seq<Seq<T>>,
    layout: PixelLayout,
    w: int,
    y: int,
    x: int,
    row: Seq<u8>,
) -> bool {
    let i = y * w + x;
    let at = x * layout.step();
    &&& call_ensures(quantize, (planes[0][i],), row[at + layout.offset(Channel::Red)])
    &&& call_ensures(quantize, (planes[1][i],), row[at + layout.offset(Channel::Green)])
    &&& call_ensures(quantize, (planes[2][i],), row[at + layout.offset(Channel::Blue)])
    &&& layout == PixelLayout::Bgra ==> row[at + 3] == 255
}

/// Writes one packed row.
fn pack_row<T: Copy, F: Fn(T) -> u8>(
    quantize: &F,
    r: &[T],
    g: &[T],
    b: &[T],
    layout: PixelLayout,
    w: usize,
    stride: usize,
    y: usize,
) -> (row: Vec<u8>)
    requires
        y * w + w <= r@.len(),
        y * w + w <= g@.len(),
        y * w + w <= b@.len(),
        w * layout.step() <= stride,
        forall|t: T| call_requires(quantize, (t,)),
    ensures
        row_packed(
            *quantize,
            seq![r@, g@, b@],
            layout,
            w as int,
            stride as int,
            y as int,
            row@,
        ),
{
    let n: usize = r.len();
    let ghost planes = seq![r@, g@, b@];
    let mut row: Vec<u8> = Vec::with_capacity(stride);
    let mut x: usize = 0;
    assert(0 <= y * w) by (nonlinear_arith);
    while x < w
        invariant
            x <= w,
            n == r@.len(),
            0 <= y * w,
            y * w + w <= n,
            y * w + w <= g@.len(),
            y * w + w <= b@.len(),
            planes == seq![r@, g@, b@],
            forall|t: T| call_requires(quantize, (t,)),
            row@.len() == x * layout.step(),
            forall|t: int|
                0 <= t < x ==> #[trigger] row_pixel(
                    *quantize,
                    planes,
                    layout,
                    w as int,
                    y as int,
                    t,
                    row@,
                ),
        decreases w - x,
    {
        let ghost was = row@;
        let i: usize = y * w + x;
        let (red, green, blue) = (quantize(r[i]), quantize(g[i]), quantize(b[i]));
        match layout {
            PixelLayout::Rgb => {
                row.push(red);
                row.push(green);
                row.push(blue);
            },
            PixelLayout::Bgra => {
                row.push(blue);
                row.push(green);
                row.push(red);
                row.push(255);
            },
        }
        proof {
            assert((x + 1) * layout.step() == x * layout.step() + layout.step())
                by (nonlinear_arith);
            assert forall|t: int| 0 <= t < x + 1 implies #[trigger] row_pixel(
                *quantize,
                planes,
                layout,
                w as int,
                y as int,
                t,
                row@,
            ) by {
                if t < x {
                    assert(row_pixel(*quantize, planes, layout, w as int, y as int, t, was));
                    assert(0 <= t * layout.step() && t * layout.step() + layout.step() <= x
                        * layout.step()) by (nonlinear_arith)
                        requires
                            0 <= t < x,
                            0 <= layout.step(),
                    ;
                }
            }
        }
        x = x + 1;
    }
    let ghost pixels = row@;
    while row.len() < stride
        invariant
            w * layout.step() <= row@.len() <= stride,
            pixels.len() == w * layout.step(),
            forall|t: int| 0 <= t < pixels.len() ==> #[trigger] row@[t] == pixels[t],
            forall|t: int| pixels.len() <= t < row@.len() ==> #[trigger] row@[t] == 0,
        decreases stride - row@.len(),
    {
        row.push(0);
    }
    proof {
        assert forall|t: int| 0 <= t < w implies #[trigger] row_pixel(
            *quantize,
            planes,
            layout,
            w as int,
            y as int,
            t,
            row@,
        ) by {
            assert(row_pixel(*quantize, planes, layout, w as int, y as int, t, pixels));
            assert(0 <= t * layout.step() && t * layout.step() + layout.step() <= w
                * layout.step()) by (nonlinear_arith)
                requires
                    0 <= t < w,
                    0 <= layout.step(),
            ;
        }
    }
    row
}

/// Puts three planes together into packed pixels, `stride` bytes from one row to
/// the next.
pub fn pack_planes<T: Copy + Sync, F: Fn(T) -> u8 + Sync>(
    quantize: &F,
    r: &[T],
    g: &[T],
    b: &[T],
    layout: PixelLayout,
    w: usize,
    h: usize,
    stride: usize,
) -> (out: Vec<u8>)
    requires
        w * h <= r@.len(),
        w * h <= g@.len(),
        w * h <= b@.len(),
        w * layout.step() <= stride,
        stride * h <= usize::MAX,
        forall|t: T| call_requires(quantize, (t,)),
    ensures
        packed(
            *quantize,
            seq![r@, g@, b@],
            layout,
            w as int,
            h as int,
            stride as int,
            out@,
        ),
{
    let ghost planes = seq![r@, g@, b@];
    let per_row = |y: usize| -> (row: Vec<u8>)
        requires
            y < h,
        ensures
            row_packed(
                *quantize,
                seq![r@, g@, b@],
                layout,
                w as int,
                stride as int,
                y as int,
                row@,
            ),
        {
            assert(y * w + w <= w * h) by (nonlinear_arith)
                requires
                    y < h,
            ;
            pack_row(quantize, r, g, b, layout, w, stride, y)
        };
    let rows: Vec<Vec<u8>> = par_map(h, per_row);
    proof {
        assert forall|y: int| 0 <= y < h implies #[trigger] rows@[y]@.len() == stride by {
            let k = y as usize;
            assert(call_ensures(per_row, (k,), rows@[k as int]));
        }
    }
    let out = joined_rows(&rows, stride);
    proof {
        let (wi, si) = (w as int, stride as int);
        assert forall|x: int, y: int| 0 <= x < w && 0 <= y < h implies #[trigger] pixel_packed(
            *quantize,
            planes,
            layout,
            wi,
            si,
            x,
            y,
            out@,
        ) by {
            let k = y as usize;
            assert(call_ensures(per_row, (k,), rows@[k as int]));
            assert(row_packed(*quantize, planes, layout, wi, si, y, rows@[y]@));
            assert(row_pixel(*quantize, planes, layout, wi, y, x, rows@[y]@));
            let at = x * layout.step();
            assert(0 <= at && at + layout.step() <= w * layout.step()) by (nonlinear_arith)
                requires
                    at == x * layout.step(),
                    0 <= x < w,
                    0 <= layout.step(),
            ;
            assert(out@[y * stride + (at + layout.offset(Channel::Red))] == rows@[y]@[at
                + layout.offset(Channel::Red)]);
            assert(out@[y * stride + (at + layout.offset(Channel::Green))] == rows@[y]@[at
                + layout.offset(Channel::Green)]);
            assert(out@[y * stride + (at + layout.offset(Channel::Blue))] == rows@[y]@[at
                + layout.offset(Channel::Blue)]);
            if layout == PixelLayout::Bgra {
                assert(out@[y * stride + (at + 3)] == rows@[y]@[at + 3]);
            }
        }
        assert forall|y: int, i: int|
            0 <= y < h && w * layout.step() <= i < stride implies #[trigger] padding(
            out@,
            si,
            y,
            i,
        ) by {
            let k = y as usize;
            assert(call_ensures(per_row, (k,), rows@[k as int]));
            assert(row_packed(*quantize, planes, layout, wi, si, y, rows@[y]@));
            assert(0 <= w * layout.step()) by (nonlinear_arith)
                requires
                    0 <= layout.step(),
            ;
            assert(out@[y * stride + i] == rows@[y]@[i]);
        }
    }
    out
}

/// Where quantizing undoes widening, taking pixels apart and putting them
/// together again gives every color byte back, whatever the strides.
pub proof fn law_pack_undoes_unpack<T, W: Fn(u8) -> T, Q: Fn(T) -> u8>(
    widen: W,
    quantize: Q,
    data: Seq<u8>,
    layout: PixelLayout,
    w: int,
    h: int,
    stride: int,
    planes: RgbPlanes<T>,
    out_stride: int,
    out: Seq<u8>,
    x: int,
    y: int,
    channel: Channel,
)
    requires
        forall|b: u8, t: T, c: u8|
            #![trigger call_ensures(widen, (b,), t), call_ensures(quantize, (t,), c)]
            call_ensures(widen, (b,), t) && call_ensures(quantize, (t,), c) ==> c == b,
        unpacked(widen, data, layout, w, h, stride, planes),
        packed(
            quantize,
            seq![planes.r@, planes.g@, planes.b@],
            layout,
            w,
            h,
            out_stride,
            out,
        ),
        0 <= x < w,
        0 <= y < h,
    ensures
        out[byte_at(layout, out_stride, x, y, channel)] == data[byte_at(
            layout,
            stride,
            x,
            y,
            channel,
        )],
{
    let all = seq![planes.r@, planes.g@, planes.b@];
    assert(pixel_packed(quantize, all, layout, w, out_stride, x, y, out));
    assert(sample_widened(
        widen,
        data,
        layout,
        stride,
        x,
        y,
        channel,
        plane_of(planes, channel)[y * w + x],
    ));
}

/// Putting planes together and taking them apart again gives every sample back
/// as `rounded` makes it, where that is what quantizing and widening a sample
/// comes to; so a sample that rounding leaves alone comes back as it was.
pub proof fn law_unpack_undoes_pack<T, W: Fn(u8) -> T, Q: Fn(T) -> u8>(
    widen: W,
    quantize: Q,
    rounded: spec_fn(T) -> T,
    planes: RgbPlanes<T>,
    layout: PixelLayout,
    w: int,
    h: int,
    stride: int,
    data: Seq<u8>,
    back: RgbPlanes<T>,
    x: int,
    y: int,
    channel: Channel,
)
    requires
        forall|t: T, c: u8, u: T|
            #![trigger call_ensures(quantize, (t,), c), call_ensures(widen, (c,), u)]
            call_ensures(quantize, (t,), c) && call_ensures(widen, (c,), u) ==> u == rounded(t),
        packed(
            quantize,
            seq![planes.r@, planes.g@, planes.b@],
            layout,
            w,
            h,
            stride,
            data,
        ),
        unpacked(widen, data, layout, w, h, stride, back),
        0 <= x < w,
        0 <= y < h,
    ensures
        plane_of(back, channel)[y * w + x] == rounded(plane_of(planes, channel)[y * w + x]),
        rounded(plane_of(planes, channel)[y * w + x]) == plane_of(planes, channel)[y * w + x]
            ==> plane_of(back, channel)[y * w + x] == plane_of(planes, channel)[y * w + x],
{
    let all = seq![planes.r@, planes.g@, planes.b@];
    assert(pixel_packed(quantize, all, layout, w, stride, x, y, data));
    assert(sample_widened(
        widen,
        data,
        layout,
        stride,
        x,
        y,
        channel,
        plane_of(back, channel)[y * w + x],
    ));
}

/// Row `y` of a picture whose rows stand `pitch` bytes apart: a negative pitch
/// means that the rows stand in reverse, the top row last.
pub open spec fn source_row(pitch: int, h: int, y: int) -> int {
    if pitch < 0 {
        h - 1 - y
    } else {
        y
    }
}

/// The bytes from one row to the next, whichever way the rows run.
pub open spec fn row_bytes(pitch: int) -> int {
    if pitch < 0 {
        -pitch
    } else {
        pitch
    }
}

/// The rows of a picture, top row first.
pub open spec fn top_down_rows(data: Seq<u8>, pitch: int, h: int) -> Seq<u8> {
    let rb = row_bytes(pitch);
    Seq::new((rb * h) as nat, |i: int| data[source_row(pitch, h, i / rb) * rb + i % rb])
}

/// Puts the rows of a picture in order, top row first.
pub fn top_down(data: &[u8], pitch: i32, h: usize) -> (out: Vec<u8>)
    requires
        row_bytes(pitch as int) * h <= data@.len(),
    ensures
        out@ == top_down_rows(data@, pitch as int, h as int),
{
    let len: usize = data.len();
    let rb: u32 = if pitch < 0 {
        (-(pitch as i64)) as u32
    } else {
        pitch as u32
    };
    let rb: usize = rb as usize;
    let ghost goal = top_down_rows(data@, pitch as int, h as int);
    let mut out: Vec<u8> = Vec::with_capacity(rb * h);
    let mut y: usize = 0;
    while y < h
        invariant
            y <= h,
            len == data@.len(),
            rb == row_bytes(pitch as int),
            rb * h <= len,
            goal == top_down_rows(data@, pitch as int, h as int),
            out@.len() == y * rb,
            forall|t: int| 0 <= t < out@.len() ==> #[trigger] out@[t] == goal[t],
        decreases h - y,
    {
        let from: usize = if pitch < 0 {
            h - 1 - y
        } else {
            y
        };
        let mut i: usize = 0;
        while i < rb
            invariant
                i <= rb,
                y < h,
                from < h,
                from == source_row(pitch as int, h as int, y as int),
                len == data@.len(),
                rb == row_bytes(pitch as int),
                rb * h <= len,
                goal == top_down_rows(data@, pitch as int, h as int),
                out@.len() == y * rb + i,
                forall|t: int| 0 <= t < out@.len() ==> #[trigger] out@[t] == goal[t],
            decreases rb - i,
        {
            proof {
                crate::arith::lemma_cell_bound(from as int, i as int, h as int, rb as int);
                crate::arith::lemma_cell_bound(y as int, i as int, h as int, rb as int);
                assert(h * rb == rb * h) by (nonlinear_arith);
                crate::arith::lemma_div_mod_of(y * rb + i, rb as int, y as int, i as int);
                assert(0 <= from * rb) by (nonlinear_arith);
            }
            out.push(data[from * rb + i]);
            i = i + 1;
        }
        assert((y + 1) * rb == y * rb + rb) by (nonlinear_arith);
        y = y + 1;
    }
    assert(h * rb == rb * h) by (nonlinear_arith);
    assert(out@ =~= goal);
    out
}

/// Rows that stand in order stay as they are; rows in reverse come out in order,
/// and a second reversal restores them.
pub proof fn law_top_down(data: Seq<u8>, pitch: int, h: int)
    requires
        0 <= h,
        0 <= pitch,
        data.len() == pitch * h,
    ensures
        top_down_rows(data, pitch, h) == data,
        pitch > 0 ==> top_down_rows(top_down_rows(data, -pitch, h), -pitch, h) == data,
{
    let same = top_down_rows(data, pitch, h);
    assert(same.len() == data.len());
    assert forall|i: int| 0 <= i < data.len() implies #[trigger] same[i] == data[i] by {
        assert(pitch > 0) by (nonlinear_arith)
            requires
                0 <= i < pitch * h,
                0 <= pitch,
        ;
        vstd::arithmetic::div_mod::lemma_fundamental_div_mod(i, pitch);
        assert(pitch * (i / pitch) == (i / pitch) * pitch) by (nonlinear_arith);
    }
    assert(same =~= data);
    if pitch > 0 {
        let once = top_down_rows(data, -pitch, h);
        let twice = top_down_rows(once, -pitch, h);
        assert forall|i: int| 0 <= i < data.len() implies #[trigger] twice[i] == data[i] by {
            let (y, x) = (i / pitch, i % pitch);
            vstd::arithmetic::div_mod::lemma_fundamental_div_mod(i, pitch);
            assert(pitch * y == y * pitch) by (nonlinear_arith);
            assert(h * pitch == pitch * h) by (nonlinear_arith);
            crate::arith::lemma_quotient_bound(i, h, pitch);
            let z = h - 1 - y;
            crate::arith::lemma_cell_bound(z, x, h, pitch);
            crate::arith::lemma_div_mod_of(z * pitch + x, pitch, z, x);
        }
        assert(twice =~= data);
    }
}

} // verus!
