//! Integer upscaling of the canvas onto a larger display surface.

use vstd::prelude::*;

verus! {

/// Where and how large the canvas is drawn on the display.
#[derive(Debug, Clone, Copy, PartialEq, Eq, Structural)]
pub struct PresentRect {
    /// Whole multiple of the canvas size, at least 1.
    pub scale: u32,
    /// Left edge on the display; negative when the canvas overflows it.
    pub off_x: i64,
    /// Top edge on the display; negative when the canvas overflows it.
    pub off_y: i64,
    /// Drawn width: canvas width times `scale`.
    pub draw_w: u64,
    /// Drawn height: canvas height times `scale`.
    pub draw_h: u64,
}

/// The largest whole scale at which the canvas fits the display, never
/// below 1.
pub open spec fn fit_scale(display_w: int, display_h: int, canvas_w: int, canvas_h: int) -> int {
    let s = if display_w / canvas_w <= display_h / canvas_h {
        display_w / canvas_w
    } else {
        display_h / canvas_h
    };
    if s < 1 {
        1
    } else {
        s
    }
}

/// The rectangle that shows a `canvas_w` by `canvas_h` canvas on a
/// `display_w` by `display_h` surface at a whole scale, centered, with the
/// leftover margin split evenly and rounded down.
pub fn present_rect(display_w: u32, display_h: u32, canvas_w: u32, canvas_h: u32) -> (r: PresentRect)
    requires
        canvas_w > 0,
        canvas_h > 0,
    ensures
        r.scale == fit_scale(display_w as int, display_h as int, canvas_w as int, canvas_h as int),
        r.draw_w == canvas_w * r.scale,
        r.draw_h == canvas_h * r.scale,
        r.off_x == (display_w - r.draw_w) / 2,
        r.off_y == (display_h - r.draw_h) / 2,
{
    let sx = display_w / canvas_w;
    let sy = display_h / canvas_h;
    let m = if sx <= sy { sx } else { sy };
    let scale = if m < 1 { 1 } else { m };
    proof {
        assert(scale <= u32::MAX);
        assert(canvas_w * scale <= u32::MAX * u32::MAX) by (nonlinear_arith)
            requires
                canvas_w <= u32::MAX,
                scale <= u32::MAX,
        ;
        assert(canvas_h * scale <= u32::MAX * u32::MAX) by (nonlinear_arith)
            requires
                canvas_h <= u32::MAX,
                scale <= u32::MAX,
        ;
    }
    let draw_w = canvas_w as u64 * scale as u64;
    let draw_h = canvas_h as u64 * scale as u64;
    let off_x = half_floor(display_w as i128 - draw_w as i128);
    let off_y = half_floor(display_h as i128 - draw_h as i128);
    PresentRect { scale, off_x, off_y, draw_w, draw_h }
}

/// Half of `v`, rounded toward negative infinity.
fn half_floor(v: i128) -> (r: i64)
    requires
        -0x1_0000_0000_0000_0000 <= v <= 0x1_0000_0000,
    ensures
        r == v / 2,
{
    let q = crate::arith::floor_div_wide(v, 2);
    q as i64
}

} // verus!
