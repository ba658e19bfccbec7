//! The rules of the two decode/encode backends.
use vstd::prelude::*;

pub mod gstreamer;
pub mod gstreamer_laws;
pub mod media_foundation;
pub mod media_foundation_laws;

verus! {

/// The most pixels a frame may have before its size is warned about.
pub const LARGE_FRAME_PIXELS: u64 = 307_200;

/// The line that says what the input is.
pub open spec fn input_line(width: u32, height: u32, fps: Seq<char>, cutoff: Seq<char>) -> Seq<char> {
    crate::text::decimal(width as nat) + "x"@ + crate::text::decimal(height as nat) + " @ "@ + fps
        + " fps, cutoff="@ + cutoff
}

/// The line that warns about a large frame.
pub open spec fn warning_line() -> Seq<char> {
    "warning: this resolution is large for a whole-frame DCT (cost grows ~quadratically); expect this to be slow"@
}

/// What is logged once the size of the input is known: what it is, and a warning
/// if its frames are large for a whole-frame transform.
pub fn input_lines(width: u32, height: u32, fps: &str, cutoff: &str) -> (lines: Vec<String>)
    ensures
        lines@.len() == (if width * height > LARGE_FRAME_PIXELS {
            2int
        } else {
            1int
        }),
        lines@[0]@ == input_line(width, height, fps@, cutoff@),
        lines@.len() > 1 ==> lines@[1]@ == warning_line(),
{
    let mut line = String::new();
    crate::text::push_decimal(&mut line, width as u64);
    line.append("x");
    crate::text::push_decimal(&mut line, height as u64);
    line.append(" @ ");
    line.append(fps);
    line.append(" fps, cutoff=");
    line.append(cutoff);
    assert(line@ =~= input_line(width, height, fps@, cutoff@));
    let mut lines: Vec<String> = Vec::new();
    lines.push(line);
    assert(width * height <= u64::MAX) by (nonlinear_arith)
        requires
            width <= u32::MAX,
            height <= u32::MAX,
    ;
    if width as u64 * height as u64 > LARGE_FRAME_PIXELS {
        lines.push(
            "warning: this resolution is large for a whole-frame DCT (cost grows ~quadratically); expect this to be slow".to_owned(),
        );
    }
    lines
}

} // verus!
