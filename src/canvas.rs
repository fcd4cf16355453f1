//! The CPU-side RGBA canvas and its drawing primitives.

use vstd::prelude::*;
use image::{ImageBuffer, Rgba, RgbaImage};
use crate::error::EngineError;
use crate::arith::{clamp_to_i32, rects_meet, saturate_i32, sprite_visible};
use crate::camera::{Camera, ceil_scaled, scaled_extent, to_screen};

verus! {

/// The `image` crate's RGBA buffer that holds a canvas's pixels. Its
/// contents are known to verified code only through the functions below.
#[verifier::external_body]
pub struct PixelStore {
    img: RgbaImage,
}

/// The pixels of an RGBA image, row by row.
pub uninterp spec fn image_pixels(store: PixelStore) -> Seq<[u8; 4]>;

/// The number of pixels in each row of an RGBA image.
pub uninterp spec fn image_width(store: PixelStore) -> nat;

/// Relies on `ImageBuffer::from_pixel`: an image of `width` by `height`
/// pixels, each a copy of `c`. It panics only when the byte buffer would
/// exceed the largest vector.
#[verifier::external_body]
fn image_filled(width: u32, height: u32, c: [u8; 4]) -> (img: PixelStore)
    requires
        4 * width * height <= isize::MAX,
    ensures
        image_width(img) == width,
        image_pixels(img) == Seq::new((width * height) as nat, |i: int| c),
{
    PixelStore { img: ImageBuffer::from_pixel(width, height, Rgba(c)) }
}

/// Relies on `ImageBuffer::put_pixel`: overwrites the pixel at column `x`
/// of row `y` and nothing else. It panics outside the image.
#[verifier::external_body]
fn image_put(img: &mut PixelStore, x: u32, y: u32, c: [u8; 4])
    requires
        x < image_width(*old(img)),
        y * image_width(*old(img)) + x < image_pixels(*old(img)).len(),
    ensures
        image_width(*final(img)) == image_width(*old(img)),
        image_pixels(*final(img)) == image_pixels(*old(img)).update(
            y * image_width(*old(img)) + x,
            c,
        ),
    no_unwind
{
    img.img.put_pixel(x, y, Rgba(c));
}

/// Relies on `ImageBuffer::get_pixel`: the pixel at column `x` of row `y`.
/// It panics outside the image.
#[verifier::external_body]
fn image_get(img: &PixelStore, x: u32, y: u32) -> (c: [u8; 4])
    requires
        x < image_width(*img),
        y * image_width(*img) + x < image_pixels(*img).len(),
    ensures
        c == image_pixels(*img)[y * image_width(*img) + x],
{
    img.img.get_pixel(x, y).0
}

/// Relies on `ImageBuffer`'s `Clone`: a copy with the same width and the
/// same pixel data.
#[verifier::external_body]
fn image_clone(img: &PixelStore) -> (r: PixelStore)
    ensures
        image_width(r) == image_width(*img),
        image_pixels(r) == image_pixels(*img),
{
    PixelStore { img: img.img.clone() }
}

/// `p` is the color `c` made fully opaque.
pub open spec fn is_opaque_of(p: [u8; 4], c: [u8; 4]) -> bool {
    p[0] == c[0] && p[1] == c[1] && p[2] == c[2] && p[3] == 255
}

/// One 8-bit channel of the "over" blend of a source value over a
/// destination value, with source alpha `a` out of 255, rounded down.
pub open spec fn blend_channel(src: u8, dst: u8, a: u8) -> int {
    (src * a + dst * (255 - a)) / 255
}

/// `out` is what compositing `src` over `dst` leaves: `dst` itself where
/// `src` is fully transparent, otherwise the blended color, fully opaque.
pub open spec fn composited(out: [u8; 4], src: [u8; 4], dst: [u8; 4]) -> bool {
    if src[3] == 0 {
        out == dst
    } else {
        &&& out[0] == blend_channel(src[0], dst[0], src[3])
        &&& out[1] == blend_channel(src[1], dst[1], src[3])
        &&& out[2] == blend_channel(src[2], dst[2], src[3])
        &&& out[3] == 255
    }
}

/// Whether a `sw` by `sh` sprite with its top-left corner at `(sx, sy)`
/// covers the cell `(x, y)`.
pub open spec fn sprite_covers(sx: int, sy: int, sw: int, sh: int, x: int, y: int) -> bool {
    sx <= x < sx + sw && sy <= y < sy + sh
}

/// The sprite pixel at column `i` of row `j`, for a sprite `sw` pixels wide.
pub open spec fn sprite_pixel(pixels: Seq<[u8; 4]>, sw: int, i: int, j: int) -> [u8; 4] {
    pixels[j * sw + i]
}

/// The cells that Bresenham's walk visits from `(x, y)` towards
/// `(x1, y1)`, stepping by `sx` and `sy`, with error term `err` and the
/// signed spans `dx >= 0` and `dy <= 0`, for at most `fuel` more steps.
pub open spec fn line_walk(
    x: int,
    y: int,
    x1: int,
    y1: int,
    sx: int,
    sy: int,
    dx: int,
    dy: int,
    err: int,
    fuel: nat,
) -> Set<(int, int)>
    decreases fuel,
{
    if (x == x1 && y == y1) || fuel == 0 {
        set![(x, y)]
    } else {
        let (nx, ny, e) = line_step(x, y, sx, sy, dx, dy, err);
        set![(x, y)].union(line_walk(nx, ny, x1, y1, sx, sy, dx, dy, e, (fuel - 1) as nat))
    }
}

/// One step of Bresenham's walk: the next column, row and error term.
pub open spec fn line_step(x: int, y: int, sx: int, sy: int, dx: int, dy: int, err: int) -> (
    int,
    int,
    int,
) {
    let e2 = 2 * err;
    let (nx, e) = if e2 >= dy {
        (x + sx, err + dy)
    } else {
        (x, err)
    };
    if e2 <= dx {
        (nx, y + sy, e + dx)
    } else {
        (nx, y, e)
    }
}

/// The absolute value of an integer.
pub open spec fn abs(v: int) -> int {
    if v < 0 {
        -v
    } else {
        v
    }
}

/// The cells of the Bresenham line from `(x0, y0)` to `(x1, y1)`. The walk
/// needs at most one step per unit of horizontal plus vertical span.
pub open spec fn line_cells(x0: int, y0: int, x1: int, y1: int) -> Set<(int, int)> {
    let dx = abs(x1 - x0);
    let dy = -abs(y1 - y0);
    let sx = if x0 < x1 { 1int } else { -1int };
    let sy = if y0 < y1 { 1int } else { -1int };
    line_walk(x0, y0, x1, y1, sx, sy, dx, dy, dx + dy, (dx - dy) as nat)
}

/// `fb` holds exactly one pixel per cell of a nonempty grid.
pub open spec fn well_shaped(fb: PixelBuffer) -> bool {
    &&& fb.spec_width() > 0
    &&& fb.spec_height() > 0
    &&& fb.pixels().len() == fb.spec_width() * fb.spec_height()
}

/// `after` has the dimensions of `before`, one pixel per cell.
pub open spec fn same_shape(after: PixelBuffer, before: PixelBuffer) -> bool {
    &&& after.spec_width() == before.spec_width()
    &&& after.spec_height() == before.spec_height()
    &&& well_shaped(after)
}

/// `after` is `before` with the cell `(x, y)` set to `c` if it lies inside
/// the canvas, and unchanged otherwise.
pub open spec fn put_result(after: PixelBuffer, before: PixelBuffer, x: int, y: int, c: [u8; 4]) -> bool {
    &&& same_shape(after, before)
    &&& before.in_bounds(x, y) ==> after.pixels() == before.pixels().update(
        y * before.spec_width() + x,
        c,
    )
    &&& !before.in_bounds(x, y) ==> after.pixels() == before.pixels()
    &&& forall|x2: int, y2: int|
        #![trigger after.at(x2, y2)]
        before.in_bounds(x2, y2) ==> after.at(x2, y2) == if x2 == x && y2 == y {
            c
        } else {
            before.at(x2, y2)
        }
}

/// `after` is `before` with every pixel set to `c` made fully opaque.
pub open spec fn clear_result(after: PixelBuffer, before: PixelBuffer, c: [u8; 4]) -> bool {
    &&& same_shape(after, before)
    &&& forall|i: int| 0 <= i < after.pixels().len() ==> is_opaque_of(#[trigger] after.pixels()[i], c)
}

/// `after` is `before` with the cells of the line from `(x0, y0)` to
/// `(x1, y1)` that lie inside the canvas set to `c`.
pub open spec fn line_result(
    after: PixelBuffer,
    before: PixelBuffer,
    x0: int,
    y0: int,
    x1: int,
    y1: int,
    c: [u8; 4],
) -> bool {
    &&& same_shape(after, before)
    &&& forall|x: int, y: int|
        #![trigger after.at(x, y)]
        before.in_bounds(x, y) ==> after.at(x, y) == if line_cells(x0, y0, x1, y1).contains((x, y)) {
            c
        } else {
            before.at(x, y)
        }
}

/// `after` is `before` with a `sw` by `sh` sprite composited at `(sx, sy)`:
/// each covered cell inside the canvas holds the sprite pixel blended over
/// what was there, and every other cell is unchanged.
pub open spec fn blit_result(
    after: PixelBuffer,
    before: PixelBuffer,
    sx: int,
    sy: int,
    sw: int,
    sh: int,
    pixels: Seq<[u8; 4]>,
) -> bool {
    &&& same_shape(after, before)
    &&& forall|x: int, y: int|
        #![trigger after.at(x, y)]
        before.in_bounds(x, y) ==> if sprite_covers(sx, sy, sw, sh, x, y) {
            composited(after.at(x, y), sprite_pixel(pixels, sw, x - sx, y - sy), before.at(x, y))
        } else {
            after.at(x, y) == before.at(x, y)
        }
}

/// A state of Bresenham's walk towards `(x1, y1)` that is on course: each
/// step sign points at the end, the cells still to go fit in the spans, and
/// the error term matches the steps taken so far on each axis.
pub open spec fn on_course(
    x: int,
    y: int,
    x1: int,
    y1: int,
    sx: int,
    sy: int,
    dx: int,
    dy: int,
    err: int,
) -> bool {
    &&& dx >= 0
    &&& dy <= 0
    &&& sx == 1 || sx == -1
    &&& sy == 1 || sy == -1
    &&& x1 - x == sx * abs(x1 - x)
    &&& y1 - y == sy * abs(y1 - y)
    &&& abs(x1 - x) <= dx
    &&& abs(y1 - y) <= -dy
    &&& err == dx + dy + (dx - abs(x1 - x)) * dy + (-dy - abs(y1 - y)) * dx
}

/// A line's walk starts on course.
pub proof fn lemma_line_starts_on_course(x0: int, y0: int, x1: int, y1: int)
    ensures
        ({
            let dx = abs(x1 - x0);
            let dy = -abs(y1 - y0);
            let sx = if x0 < x1 { 1int } else { -1int };
            let sy = if y0 < y1 { 1int } else { -1int };
            on_course(x0, y0, x1, y1, sx, sy, dx, dy, dx + dy)
        }),
{
    let dx = abs(x1 - x0);
    let dy = -abs(y1 - y0);
    assert(dx + dy == dx + dy + (dx - dx) * dy + (-dy + dy) * dx) by (nonlinear_arith);
}

/// Each step of a walk that is on course and not yet at its end moves to an
/// 8-connected neighbour: by at most one cell on each axis, by at least one
/// cell in all, never away from the end on either axis, and strictly closer
/// to it overall. The walk stays on course.
pub proof fn lemma_line_step_toward_end(
    x: int,
    y: int,
    x1: int,
    y1: int,
    sx: int,
    sy: int,
    dx: int,
    dy: int,
    err: int,
)
    requires
        on_course(x, y, x1, y1, sx, sy, dx, dy, err),
        x != x1 || y != y1,
    ensures
        ({
            let (nx, ny, ne) = line_step(x, y, sx, sy, dx, dy, err);
            &&& on_course(nx, ny, x1, y1, sx, sy, dx, dy, ne)
            &&& abs(nx - x) <= 1
            &&& abs(ny - y) <= 1
            &&& nx != x || ny != y
            &&& abs(x1 - nx) <= abs(x1 - x)
            &&& abs(y1 - ny) <= abs(y1 - y)
            &&& abs(x1 - nx) + abs(y1 - ny) < abs(x1 - x) + abs(y1 - y)
        }),
{
    let rx = abs(x1 - x);
    let ry = abs(y1 - y);
    let e2 = 2 * err;
    if rx == 0 {
        assert(e2 < dy) by (nonlinear_arith)
            requires
                e2 == 2 * err,
                err == dx + dy + (dx - 0) * dy + (-dy - ry) * dx,
                ry >= 1,
                ry <= -dy,
                dx >= 0,
        ;
    }
    if ry == 0 {
        assert(e2 > dx) by (nonlinear_arith)
            requires
                e2 == 2 * err,
                err == dx + dy + (dx - rx) * dy + (-dy - 0) * dx,
                rx >= 1,
                rx <= dx,
                dy <= 0,
        ;
    }
    let (nx, ny, ne) = line_step(x, y, sx, sy, dx, dy, err);
    let rx2 = abs(x1 - nx);
    let ry2 = abs(y1 - ny);
    if e2 >= dy {
        assert(rx > 0);
        assert(nx == x + sx);
        if sx == 1 {
            assert(x1 - x == rx) by (nonlinear_arith)
                requires
                    sx == 1,
                    x1 - x == sx * rx,
            ;
        } else {
            assert(x1 - x == -rx) by (nonlinear_arith)
                requires
                    sx == -1,
                    x1 - x == sx * rx,
            ;
        }
        assert(rx2 == rx - 1);
        assert(x1 - nx == sx * rx2) by (nonlinear_arith)
            requires
                x1 - x == sx * rx,
                nx == x + sx,
                rx2 == rx - 1,
        ;
    } else {
        assert(rx2 == rx);
    }
    if e2 <= dx {
        assert(ry > 0);
        assert(ny == y + sy);
        if sy == 1 {
            assert(y1 - y == ry) by (nonlinear_arith)
                requires
                    sy == 1,
                    y1 - y == sy * ry,
            ;
        } else {
            assert(y1 - y == -ry) by (nonlinear_arith)
                requires
                    sy == -1,
                    y1 - y == sy * ry,
            ;
        }
        assert(ry2 == ry - 1);
        assert(y1 - ny == sy * ry2) by (nonlinear_arith)
            requires
                y1 - y == sy * ry,
                ny == y + sy,
                ry2 == ry - 1,
        ;
    } else {
        assert(ry2 == ry);
    }
    assert(ne == dx + dy + (dx - rx2) * dy + (-dy - ry2) * dx) by (nonlinear_arith)
        requires
            err == dx + dy + (dx - rx) * dy + (-dy - ry) * dx,
            ne == err + (if e2 >= dy { dy } else { 0 }) + (if e2 <= dx { dx } else { 0 }),
            rx2 == rx - (if e2 >= dy { 1int } else { 0 }),
            ry2 == ry - (if e2 <= dx { 1int } else { 0 }),
    ;
}

/// From any state that is on course, with at least as much fuel as cells
/// left to go on both axes together, the walk reaches `(x1, y1)`.
proof fn lemma_walk_reaches_end(
    x: int,
    y: int,
    x1: int,
    y1: int,
    sx: int,
    sy: int,
    dx: int,
    dy: int,
    err: int,
    fuel: nat,
)
    requires
        on_course(x, y, x1, y1, sx, sy, dx, dy, err),
        fuel >= abs(x1 - x) + abs(y1 - y),
    ensures
        line_walk(x, y, x1, y1, sx, sy, dx, dy, err, fuel).contains((x1, y1)),
    decreases fuel,
{
    if x == x1 && y == y1 {
        return;
    }
    lemma_line_step_toward_end(x, y, x1, y1, sx, sy, dx, dy, err);
    let (nx, ny, ne) = line_step(x, y, sx, sy, dx, dy, err);
    lemma_walk_reaches_end(nx, ny, x1, y1, sx, sy, dx, dy, ne, (fuel - 1) as nat);
}

/// Along the major axis (horizontal when `xmajor`) every step of a walk
/// that is on course moves one cell, so the walk visits one cell more than
/// the cells left to go on that axis, and never a cell farther from the end
/// than where it stands.
proof fn lemma_walk_count(
    x: int,
    y: int,
    x1: int,
    y1: int,
    sx: int,
    sy: int,
    dx: int,
    dy: int,
    err: int,
    fuel: nat,
    xmajor: bool,
)
    requires
        on_course(x, y, x1, y1, sx, sy, dx, dy, err),
        fuel >= abs(x1 - x) + abs(y1 - y),
        xmajor ==> dx + dy >= 0 && 2 * err >= dy,
        !xmajor ==> dx + dy <= 0 && 2 * err <= dx,
    ensures
        line_walk(x, y, x1, y1, sx, sy, dx, dy, err, fuel).finite(),
        line_walk(x, y, x1, y1, sx, sy, dx, dy, err, fuel).len() == 1 + if xmajor {
            abs(x1 - x)
        } else {
            abs(y1 - y)
        },
        forall|c: (int, int)|
            #[trigger] line_walk(x, y, x1, y1, sx, sy, dx, dy, err, fuel).contains(c) ==> abs(
                x1 - c.0,
            ) + abs(y1 - c.1) <= abs(x1 - x) + abs(y1 - y),
    decreases fuel,
{
    let rx = abs(x1 - x);
    let ry = abs(y1 - y);
    if x == x1 && y == y1 {
        assert(line_walk(x, y, x1, y1, sx, sy, dx, dy, err, fuel) == set![(x, y)]);
        return;
    }
    let e2 = 2 * err;
    if xmajor && rx == 0 {
        assert(e2 < dy) by (nonlinear_arith)
            requires
                e2 == 2 * err,
                err == dx + dy + (dx - 0) * dy + (-dy - ry) * dx,
                ry >= 1,
                ry <= -dy,
                dx >= 0,
        ;
    }
    if !xmajor && ry == 0 {
        assert(e2 > dx) by (nonlinear_arith)
            requires
                e2 == 2 * err,
                err == dx + dy + (dx - rx) * dy + (-dy - 0) * dx,
                rx >= 1,
                rx <= dx,
                dy <= 0,
        ;
    }
    lemma_line_step_toward_end(x, y, x1, y1, sx, sy, dx, dy, err);
    let (nx, ny, ne) = line_step(x, y, sx, sy, dx, dy, err);
    let rest = line_walk(nx, ny, x1, y1, sx, sy, dx, dy, ne, (fuel - 1) as nat);
    lemma_walk_count(nx, ny, x1, y1, sx, sy, dx, dy, ne, (fuel - 1) as nat, xmajor);
    if xmajor {
        assert(abs(x1 - nx) == rx - 1);
    } else {
        assert(abs(y1 - ny) == ry - 1);
    }
    assert(!rest.contains((x, y)));
    assert(line_walk(x, y, x1, y1, sx, sy, dx, dy, err, fuel) =~= rest.insert((x, y)));
}

/// The Bresenham line from `(x0, y0)` to `(x1, y1)` has one cell more than
/// the larger of its horizontal and vertical spans.
pub proof fn lemma_line_cell_count(x0: int, y0: int, x1: int, y1: int)
    ensures
        line_cells(x0, y0, x1, y1).finite(),
        line_cells(x0, y0, x1, y1).len() == 1 + if abs(x1 - x0) >= abs(y1 - y0) {
            abs(x1 - x0)
        } else {
            abs(y1 - y0)
        },
{
    let dx = abs(x1 - x0);
    let dy = -abs(y1 - y0);
    let sx = if x0 < x1 { 1int } else { -1int };
    let sy = if y0 < y1 { 1int } else { -1int };
    lemma_line_starts_on_course(x0, y0, x1, y1);
    lemma_walk_count(x0, y0, x1, y1, sx, sy, dx, dy, dx + dy, (dx - dy) as nat, dx + dy >= 0);
}

/// The Bresenham line contains both of its ends.
pub proof fn lemma_line_has_ends(x0: int, y0: int, x1: int, y1: int)
    ensures
        line_cells(x0, y0, x1, y1).contains((x0, y0)),
        line_cells(x0, y0, x1, y1).contains((x1, y1)),
{
    let dx = abs(x1 - x0);
    let dy = -abs(y1 - y0);
    let sx = if x0 < x1 { 1int } else { -1int };
    let sy = if y0 < y1 { 1int } else { -1int };
    lemma_line_starts_on_course(x0, y0, x1, y1);
    lemma_walk_reaches_end(x0, y0, x1, y1, sx, sy, dx, dy, dx + dy, (dx - dy) as nat);
}

/// One channel of the blend, computed.
fn blend_u8(src: u8, dst: u8, a: u8) -> (r: u8)
    ensures
        r == blend_channel(src, dst, a),
{
    let (s, d, al) = (src as u32, dst as u32, a as u32);
    proof {
        assert(s * al + d * (255 - al) <= 255 * 255) by (nonlinear_arith)
            requires
                s <= 255,
                d <= 255,
                al <= 255,
        ;
    }
    let v = (s * al + d * (255 - al)) / 255;
    v as u8
}

/// A fixed-size grid of RGBA pixels, stored row-major.
pub struct PixelBuffer {
    w: u32,
    h: u32,
    buf: PixelStore,
}

impl PixelBuffer {
    #[verifier::type_invariant]
    spec fn shape_ok(self) -> bool {
        &&& self.w > 0
        &&& self.h > 0
        &&& 4 * self.w * self.h <= isize::MAX
        &&& image_width(self.buf) == self.w
        &&& image_pixels(self.buf).len() == self.w * self.h
    }

    /// Number of columns.
    pub closed spec fn spec_width(&self) -> nat {
        self.w as nat
    }

    /// Number of rows.
    pub closed spec fn spec_height(&self) -> nat {
        self.h as nat
    }

    /// Every pixel, row by row.
    pub closed spec fn pixels(&self) -> Seq<[u8; 4]> {
        image_pixels(self.buf)
    }

    /// Whether `(x, y)` names a pixel of the canvas.
    pub open spec fn in_bounds(&self, x: int, y: int) -> bool {
        0 <= x < self.spec_width() && 0 <= y < self.spec_height()
    }

    /// The pixel at column `x` of row `y`.
    pub open spec fn at(&self, x: int, y: int) -> [u8; 4] {
        self.pixels()[y * self.spec_width() + x]
    }

    /// A `w` by `h` canvas of opaque black.
    pub fn new(w: u32, h: u32) -> (r: Result<PixelBuffer, EngineError>)
        ensures
            w == 0 || h == 0 <==> r == Err::<PixelBuffer, EngineError>(EngineError::EmptyDimensions),
            w > 0 && h > 0 && 4 * w * h > isize::MAX <==> r == Err::<PixelBuffer, EngineError>(
                EngineError::CanvasTooLarge,
            ),
            w > 0 && h > 0 && 4 * w * h <= isize::MAX ==> r is Ok,
            r is Ok ==> {
                let fb = r->Ok_0;
                &&& fb.spec_width() == w
                &&& fb.spec_height() == h
                &&& well_shaped(fb)
                &&& forall|i: int|
                    0 <= i < fb.pixels().len() ==> fb.pixels()[i] == [0u8, 0u8, 0u8, 255u8]
                &&& forall|x: int, y: int|
                    fb.in_bounds(x, y) ==> #[trigger] fb.at(x, y) == [0u8, 0u8, 0u8, 255u8]
            },
    {
        if w == 0 || h == 0 {
            return Err(EngineError::EmptyDimensions);
        }
        proof {
            assert(w * h <= u32::MAX * u32::MAX) by (nonlinear_arith)
                requires
                    w <= u32::MAX,
                    h <= u32::MAX,
            ;
        }
        let cells = (w as u64) * (h as u64);
        assert(4 * w * h == 4 * cells) by (nonlinear_arith)
            requires
                cells == w * h,
        ;
        if cells > (isize::MAX as u64) / 4 {
            return Err(EngineError::CanvasTooLarge);
        }
        let buf = image_filled(w, h, [0u8, 0u8, 0u8, 255u8]);
        let fb = PixelBuffer { w, h, buf };
        proof {
            assert forall|x: int, y: int| fb.in_bounds(x, y) implies #[trigger] fb.at(x, y) == [
                0u8,
                0u8,
                0u8,
                255u8,
            ] by {
                lemma_cell_index(x, y, w as int, h as int);
            }
        }
        Ok(fb)
    }

    /// Number of columns.
    pub fn width(&self) -> (r: u32)
        ensures
            r == self.spec_width(),
            well_shaped(*self),
    {
        proof {
            use_type_invariant(self);
        }
        self.w
    }

    /// Number of rows.
    pub fn height(&self) -> (r: u32)
        ensures
            r == self.spec_height(),
            well_shaped(*self),
    {
        proof {
            use_type_invariant(self);
        }
        self.h
    }

    /// The pixels as bytes, four per pixel in red, green, blue, alpha
    /// order, row by row: the layout a texture upload takes.
    pub fn to_rgba_bytes(&self) -> (r: Vec<u8>)
        ensures
            r@.len() == 4 * self.pixels().len(),
            forall|i: int, k: int|
                0 <= i < self.pixels().len() && 0 <= k < 4 ==> r@[4 * i + k] == #[trigger] self.pixels()[i][k],
    {
        proof {
            use_type_invariant(self);
        }
        let mut out: Vec<u8> = Vec::new();
        let mut y: u32 = 0;
        while y < self.h
            invariant
                well_shaped(*self),
                self.spec_width() == self.w,
                self.spec_height() == self.h,
                0 <= y <= self.h,
                out@.len() == 4 * (y * self.w),
                forall|i: int, k: int|
                    0 <= i < y * self.w && 0 <= k < 4 ==> out@[4 * i + k] == #[trigger] self.pixels()[i][k],
            decreases self.h - y,
        {
            let mut x: u32 = 0;
            while x < self.w
                invariant
                    well_shaped(*self),
                    self.spec_width() == self.w,
                    self.spec_height() == self.h,
                    0 <= y < self.h,
                    0 <= x <= self.w,
                    out@.len() == 4 * (y * self.w + x),
                    forall|i: int, k: int|
                        0 <= i < y * self.w + x && 0 <= k < 4 ==> out@[4 * i + k]
                            == #[trigger] self.pixels()[i][k],
                decreases self.w - x,
            {
                proof {
                    lemma_cell_index(x as int, y as int, self.w as int, self.h as int);
                }
                let p = self.get_wide(x as i64, y as i64);
                let ghost cur = y * self.w + x;
                out.push(p[0]);
                out.push(p[1]);
                out.push(p[2]);
                out.push(p[3]);
                proof {
                    assert forall|i: int, k: int|
                        0 <= i < cur + 1 && 0 <= k < 4 implies out@[4 * i + k]
                            == #[trigger] self.pixels()[i][k] by {
                        if i == cur {
                            assert(self.pixels()[i] == p);
                        }
                    }
                }
                x += 1;
            }
            proof {
                assert((y + 1) * self.w == y * self.w + self.w) by (nonlinear_arith);
            }
            y += 1;
        }
        proof {
            assert(y * self.w == self.w * self.h) by (nonlinear_arith)
                requires
                    y == self.h,
            ;
        }
        out
    }

    /// The pixel at `(x, y)`, or `None` outside the canvas.
    pub fn get(&self, x: i32, y: i32) -> (r: Option<[u8; 4]>)
        ensures
            self.in_bounds(x as int, y as int) ==> r == Some(self.at(x as int, y as int)),
            !self.in_bounds(x as int, y as int) ==> r is None,
    {
        proof {
            use_type_invariant(self);
        }
        if x >= 0 && y >= 0 && (x as u32) < self.w && (y as u32) < self.h {
            proof {
                lemma_cell_index(x as int, y as int, self.w as int, self.h as int);
            }
            Some(image_get(&self.buf, x as u32, y as u32))
        } else {
            None
        }
    }

    /// Sets every pixel to `color`, made fully opaque.
    pub fn clear(&mut self, color: [u8; 4])
        ensures
            clear_result(*final(self), *old(self), color),
    {
        proof {
            use_type_invariant(&*self);
        }
        let fill = [color[0], color[1], color[2], 255u8];
        let ghost w: int = self.w as int;
        let ghost h: int = self.h as int;
        let mut y: u32 = 0;
        while y < self.h
            invariant
                self.w == w,
                self.h == h,
                w > 0,
                h > 0,
                4 * w * h <= isize::MAX,
                old(self).spec_width() == w,
                old(self).spec_height() == h,
                old(self).pixels().len() == w * h,
                image_width(self.buf) == w,
                image_pixels(self.buf).len() == w * h,
                is_opaque_of(fill, color),
                0 <= y <= h,
                forall|i: int|
                    0 <= i < y * w ==> is_opaque_of(#[trigger] image_pixels(self.buf)[i], color),
            decreases h - y,
        {
            let mut x: u32 = 0;
            while x < self.w
                invariant
                    self.w == w,
                    self.h == h,
                    w > 0,
                    h > 0,
                    4 * w * h <= isize::MAX,
                    image_width(self.buf) == w,
                    image_pixels(self.buf).len() == w * h,
                    is_opaque_of(fill, color),
                    0 <= y < h,
                    0 <= x <= w,
                    forall|i: int|
                        0 <= i < y * w + x ==> is_opaque_of(
                            #[trigger] image_pixels(self.buf)[i],
                            color,
                        ),
                decreases w - x,
            {
                proof {
                    lemma_cell_index(x as int, y as int, w, h);
                }
                image_put(&mut self.buf, x, y, fill);
                x += 1;
            }
            proof {
                assert((y + 1) * w == y * w + w) by (nonlinear_arith);
            }
            y += 1;
        }
        proof {
            assert(y * w == w * h) by (nonlinear_arith)
                requires
                    y == h,
            ;
        }
    }

    /// Draws the Bresenham line from `(x0, y0)` to `(x1, y1)`, both ends
    /// included; cells outside the canvas are skipped one by one.
    pub fn line(&mut self, x0: i32, y0: i32, x1: i32, y1: i32, c: [u8; 4])
        ensures
            line_result(*final(self), *old(self), x0 as int, y0 as int, x1 as int, y1 as int, c),
    {
        proof {
            use_type_invariant(&*self);
        }
        let ghost pre = *self;
        let x1w: i64 = x1 as i64;
        let y1w: i64 = y1 as i64;
        let mut x: i64 = x0 as i64;
        let mut y: i64 = y0 as i64;
        let dx: i64 = if x1w >= x { x1w - x } else { x - x1w };
        let sx: i64 = if x < x1w { 1 } else { -1 };
        let dy: i64 = if y1w >= y { y - y1w } else { y1w - y };
        let sy: i64 = if y < y1w { 1 } else { -1 };
        let mut err: i128 = dx as i128 + dy as i128;
        let mut fuel: u64 = (dx - dy) as u64;
        let ghost full = line_cells(x0 as int, y0 as int, x1 as int, y1 as int);
        let ghost mut done: Set<(int, int)> = Set::empty();
        let ghost total = fuel as int;
        loop
            invariant
                self.spec_width() == pre.spec_width(),
                self.spec_height() == pre.spec_height(),
                self.pixels().len() == pre.pixels().len(),
                pre == *old(self),
                well_shaped(pre),
                x1w == x1,
                y1w == y1,
                0 <= dx <= 0x1_0000_0000,
                -0x1_0000_0000 <= dy <= 0,
                sx == 1 || sx == -1,
                sy == 1 || sy == -1,
                total == dx - dy,
                0 <= fuel <= total,
                abs(x - x0) <= total - fuel,
                abs(y - y0) <= total - fuel,
                abs(err as int) <= (total - fuel + 1) * 0x4_0000_0000,
                full == done.union(
                    line_walk(
                        x as int,
                        y as int,
                        x1 as int,
                        y1 as int,
                        sx as int,
                        sy as int,
                        dx as int,
                        dy as int,
                        err as int,
                        fuel as nat,
                    ),
                ),
                forall|px: int, py: int|
                    #![trigger self.at(px, py)]
                    pre.in_bounds(px, py) ==> self.at(px, py) == if done.contains((px, py)) {
                        c
                    } else {
                        pre.at(px, py)
                    },
            ensures
                self.spec_width() == pre.spec_width(),
                self.spec_height() == pre.spec_height(),
                self.pixels().len() == pre.pixels().len(),
                forall|px: int, py: int|
                    #![trigger self.at(px, py)]
                    pre.in_bounds(px, py) ==> self.at(px, py) == if full.contains((px, py)) {
                        c
                    } else {
                        pre.at(px, py)
                    },
            decreases fuel,
        {
            self.put_wide(x, y, c);
            let ghost walk = line_walk(
                x as int,
                y as int,
                x1 as int,
                y1 as int,
                sx as int,
                sy as int,
                dx as int,
                dy as int,
                err as int,
                fuel as nat,
            );
            let ghost gx: int = x as int;
            let ghost gy: int = y as int;
            let ghost old_done = done;
            proof {
                done = done.insert((gx, gy));
            }
            if (x == x1w && y == y1w) || fuel == 0 {
                proof {
                    assert(walk == set![(gx, gy)]);
                    assert(full =~= done);
                }
                break;
            }
            let ghost ge: int = err as int;
            let e2 = 2 * err;
            if e2 >= dy as i128 {
                err += dy as i128;
                x += sx;
            }
            if e2 <= dx as i128 {
                err += dx as i128;
                y += sy;
            }
            fuel -= 1;
            proof {
                assert(line_step(gx, gy, sx as int, sy as int, dx as int, dy as int, ge) == (
                    x as int,
                    y as int,
                    err as int,
                ));
                assert(walk == set![(gx, gy)].union(
                    line_walk(
                        x as int,
                        y as int,
                        x1 as int,
                        y1 as int,
                        sx as int,
                        sy as int,
                        dx as int,
                        dy as int,
                        err as int,
                        fuel as nat,
                    ),
                ));
                assert(full =~= done.union(
                    line_walk(
                        x as int,
                        y as int,
                        x1 as int,
                        y1 as int,
                        sx as int,
                        sy as int,
                        dx as int,
                        dy as int,
                        err as int,
                        fuel as nat,
                    ),
                ));
            }
        }
    }

    /// Composites a `sprite_w` by `sprite_h` sprite, given row-major, with
    /// its top-left corner at `(sx, sy)`: each covered cell inside the
    /// canvas becomes the source blended over what was there, fully
    /// opaque, unless the source pixel is fully transparent.
    pub fn blit_rgba(&mut self, sx: i32, sy: i32, sprite_w: u32, sprite_h: u32, pixels: &[[u8; 4]])
        requires
            sprite_w * sprite_h <= pixels@.len(),
        ensures
            blit_result(
                *final(self),
                *old(self),
                sx as int,
                sy as int,
                sprite_w as int,
                sprite_h as int,
                pixels@,
            ),
    {
        proof {
            use_type_invariant(&*self);
        }
        let ghost pre = *self;
        let n = pixels.len();
        let mut j: u32 = 0;
        while j < sprite_h
            invariant
                self.spec_width() == pre.spec_width(),
                self.spec_height() == pre.spec_height(),
                self.pixels().len() == pre.pixels().len(),
                pre == *old(self),
                well_shaped(pre),
                sprite_w * sprite_h <= pixels@.len(),
                n == pixels@.len(),
                0 <= j <= sprite_h,
                forall|x: int, y: int|
                    #![trigger self.at(x, y)]
                    pre.in_bounds(x, y) ==> if sprite_covers(
                        sx as int,
                        sy as int,
                        sprite_w as int,
                        j as int,
                        x,
                        y,
                    ) {
                        composited(
                            self.at(x, y),
                            sprite_pixel(pixels@, sprite_w as int, x - sx, y - sy),
                            pre.at(x, y),
                        )
                    } else {
                        self.at(x, y) == pre.at(x, y)
                    },
            decreases sprite_h - j,
        {
            let mut i: u32 = 0;
            while i < sprite_w
                invariant
                    self.spec_width() == pre.spec_width(),
                    self.spec_height() == pre.spec_height(),
                    self.pixels().len() == pre.pixels().len(),
                    well_shaped(pre),
                    sprite_w * sprite_h <= pixels@.len(),
                    n == pixels@.len(),
                    0 <= j < sprite_h,
                    0 <= i <= sprite_w,
                    forall|x: int, y: int|
                        #![trigger self.at(x, y)]
                        pre.in_bounds(x, y) ==> if sprite_covers(
                            sx as int,
                            sy as int,
                            sprite_w as int,
                            j as int,
                            x,
                            y,
                        ) || (y == sy + j && sx <= x < sx + i) {
                            composited(
                                self.at(x, y),
                                sprite_pixel(pixels@, sprite_w as int, x - sx, y - sy),
                                pre.at(x, y),
                            )
                        } else {
                            self.at(x, y) == pre.at(x, y)
                        },
                decreases sprite_w - i,
            {
                let px = sx as i64 + i as i64;
                let py = sy as i64 + j as i64;
                if px >= 0 && py >= 0 && px < self.w as i64 && py < self.h as i64 {
                    proof {
                        lemma_cell_index(i as int, j as int, sprite_w as int, sprite_h as int);
                        assert(j * sprite_w + i < pixels@.len());
                    }
                    let s = pixels[j as usize * sprite_w as usize + i as usize];
                    if s[3] != 0 {
                        let dst = self.get_wide(px, py);
                        let out = [
                            blend_u8(s[0], dst[0], s[3]),
                            blend_u8(s[1], dst[1], s[3]),
                            blend_u8(s[2], dst[2], s[3]),
                            255u8,
                        ];
                        self.put_wide(px, py, out);
                    }
                }
                i += 1;
            }
            j += 1;
        }
    }

    /// Composites a sprite placed at world point `(world_x, world_y)`
    /// through `cam`. The sprite's extent scaled by the zoom, rounded up,
    /// decides whether it meets the viewport; if it does, its pixels are
    /// composited unscaled at the screen point, otherwise nothing changes.
    pub fn blit_to_camera(
        &mut self,
        cam: &Camera,
        sprite_w: u32,
        sprite_h: u32,
        pixels: &[[u8; 4]],
        world_x: i32,
        world_y: i32,
    )
        requires
            sprite_w * sprite_h <= pixels@.len(),
        ensures
            ({
                let sx = saturate_i32(
                    to_screen(world_x as int, cam.spec_x(), cam.spec_zoom_num(), cam.spec_zoom_den()),
                );
                let sy = saturate_i32(
                    to_screen(world_y as int, cam.spec_y(), cam.spec_zoom_num(), cam.spec_zoom_den()),
                );
                let sw = saturate_i32(
                    ceil_scaled(sprite_w as int, cam.spec_zoom_num(), cam.spec_zoom_den()),
                );
                let sh = saturate_i32(
                    ceil_scaled(sprite_h as int, cam.spec_zoom_num(), cam.spec_zoom_den()),
                );
                let vw = saturate_i32(cam.spec_viewport_w());
                let vh = saturate_i32(cam.spec_viewport_h());
                if rects_meet(sx, sy, sw, sh, vw, vh) {
                    blit_result(
                        *final(self),
                        *old(self),
                        sx,
                        sy,
                        sprite_w as int,
                        sprite_h as int,
                        pixels@,
                    )
                } else {
                    *final(self) == *old(self)
                }
            }),
    {
        let (sx, sy) = cam.world_to_screen(world_x, world_y);
        let num = cam.zoom_num();
        let den = cam.zoom_den();
        let sw = scaled_extent(sprite_w, num, den);
        let sh = scaled_extent(sprite_h, num, den);
        let vw = clamp_to_i32(cam.viewport_w() as i128);
        let vh = clamp_to_i32(cam.viewport_h() as i128);
        if !sprite_visible(sx, sy, sw, sh, vw, vh) {
            return;
        }
        self.blit_rgba(sx, sy, sprite_w, sprite_h, pixels);
    }

    /// Plots one pixel; a position outside the canvas is silently ignored.
    pub fn put(&mut self, x: i32, y: i32, c: [u8; 4])
        ensures
            put_result(*final(self), *old(self), x as int, y as int, c),
    {
        self.put_wide(x as i64, y as i64, c);
    }

    /// `put` over coordinates wide enough for any point of a line.
    fn put_wide(&mut self, x: i64, y: i64, c: [u8; 4])
        ensures
            put_result(*final(self), *old(self), x as int, y as int, c),
    {
        proof {
            use_type_invariant(&*self);
        }
        if x >= 0 && y >= 0 && x < self.w as i64 && y < self.h as i64 {
            proof {
                lemma_cell_index(x as int, y as int, self.w as int, self.h as int);
            }
            image_put(&mut self.buf, x as u32, y as u32, c);
            proof {
                let w = self.w as int;
                assert forall|x2: int, y2: int|
                    #![trigger self.at(x2, y2)]
                    old(self).in_bounds(x2, y2) implies self.at(x2, y2) == if x2 == x && y2 == y {
                        c
                    } else {
                        old(self).at(x2, y2)
                    } by {
                    lemma_cell_index(x2, y2, w, self.h as int);
                    if x2 != x || y2 != y {
                        lemma_cell_distinct(x as int, y as int, x2, y2, w);
                    }
                }
            }
        }
    }

    /// The pixel at `(x, y)`, which lies inside the canvas.
    fn get_wide(&self, x: i64, y: i64) -> (r: [u8; 4])
        requires
            self.in_bounds(x as int, y as int),
        ensures
            r == self.at(x as int, y as int),
    {
        proof {
            use_type_invariant(self);
            lemma_cell_index(x as int, y as int, self.w as int, self.h as int);
        }
        image_get(&self.buf, x as u32, y as u32)
    }
}

/// The row-major index of a cell lies inside the grid.
proof fn lemma_cell_index(x: int, y: int, w: int, h: int)
    requires
        0 <= x < w,
        0 <= y < h,
    ensures
        0 <= y * w + x < w * h,
{
    assert(0 <= y * w + x < w * h) by (nonlinear_arith)
        requires
            0 <= x < w,
            0 <= y < h,
    ;
}

impl Clone for PixelBuffer {
    /// A canvas of the same size holding the same pixels.
    fn clone(&self) -> (r: PixelBuffer)
        ensures
            r.spec_width() == self.spec_width(),
            r.spec_height() == self.spec_height(),
            r.pixels() == self.pixels(),
    {
        proof {
            use_type_invariant(self);
        }
        PixelBuffer { w: self.w, h: self.h, buf: image_clone(&self.buf) }
    }
}

/// Distinct cells of a grid have distinct row-major indices.
proof fn lemma_cell_distinct(x: int, y: int, x2: int, y2: int, w: int)
    requires
        0 <= x < w,
        0 <= x2 < w,
        0 <= y,
        0 <= y2,
        x != x2 || y != y2,
    ensures
        y * w + x != y2 * w + x2,
{
    if y < y2 {
        assert(y * w + x < y2 * w + x2) by (nonlinear_arith)
            requires
                0 <= x < w,
                0 <= x2,
                y < y2,
        ;
    } else if y2 < y {
        assert(y2 * w + x2 < y * w + x) by (nonlinear_arith)
            requires
                0 <= x2 < w,
                0 <= x,
                y2 < y,
        ;
    }
}

/// A plot inside the canvas reads back as the color written; one outside
/// leaves every pixel as it was.
pub proof fn lemma_put_then_read(after: PixelBuffer, before: PixelBuffer, x: int, y: int, c: [u8; 4])
    requires
        put_result(after, before, x, y, c),
    ensures
        before.in_bounds(x, y) ==> after.at(x, y) == c,
        !before.in_bounds(x, y) ==> after.pixels() == before.pixels(),
{
}

/// After a clear, every cell reads as the clear color made fully opaque,
/// whatever alpha the color had.
pub proof fn lemma_clear_then_read(after: PixelBuffer, before: PixelBuffer, c: [u8; 4])
    requires
        clear_result(after, before, c),
    ensures
        forall|x: int, y: int| after.in_bounds(x, y) ==> is_opaque_of(#[trigger] after.at(x, y), c),
{
    assert forall|x: int, y: int| after.in_bounds(x, y) implies is_opaque_of(
        #[trigger] after.at(x, y),
        c,
    ) by {
        lemma_cell_index(x, y, after.spec_width() as int, after.spec_height() as int);
    }
}

/// A line whose two ends are the same cell consists of that cell alone, so
/// drawing it changes at most that one pixel.
pub proof fn lemma_point_line(after: PixelBuffer, before: PixelBuffer, x0: int, y0: int, c: [u8; 4])
    requires
        line_result(after, before, x0, y0, x0, y0, c),
    ensures
        line_cells(x0, y0, x0, y0) == set![(x0, y0)],
        before.in_bounds(x0, y0) ==> after.at(x0, y0) == c,
        forall|x: int, y: int|
            before.in_bounds(x, y) && (x != x0 || y != y0) ==> #[trigger] after.at(x, y) == before.at(
                x,
                y,
            ),
{
    assert(line_cells(x0, y0, x0, y0) == set![(x0, y0)]);
}

/// A cell index decomposes into its column and row.
proof fn lemma_index_to_cell(i: int, w: int, h: int)
    requires
        w > 0,
        0 <= i < w * h,
    ensures
        0 <= i % w < w,
        0 <= i / w < h,
        (i / w) * w + i % w == i,
{
    vstd::arithmetic::div_mod::lemma_fundamental_div_mod(i, w);
    assert(0 <= i / w < h) by (nonlinear_arith)
        requires
            i == w * (i / w) + i % w,
            0 <= i % w < w,
            0 <= i < w * h,
            w > 0,
    ;
    assert((i / w) * w == w * (i / w)) by (nonlinear_arith);
}

/// Two canvases of one shape that agree on every cell are equal pixel for
/// pixel.
proof fn lemma_cells_agree(a: PixelBuffer, b: PixelBuffer)
    requires
        same_shape(a, b),
        well_shaped(b),
        forall|x: int, y: int| b.in_bounds(x, y) ==> #[trigger] a.at(x, y) == b.at(x, y),
    ensures
        a.pixels() == b.pixels(),
{
    let w = b.spec_width() as int;
    let h = b.spec_height() as int;
    assert forall|i: int| 0 <= i < a.pixels().len() implies a.pixels()[i] == b.pixels()[i] by {
        lemma_index_to_cell(i, w, h);
        assert(a.at(i % w, i / w) == b.at(i % w, i / w));
    }
    assert(a.pixels() =~= b.pixels());
}

/// Blitting a sprite that is fully transparent everywhere leaves the canvas
/// unchanged, pixel for pixel.
pub proof fn lemma_transparent_blit(
    after: PixelBuffer,
    before: PixelBuffer,
    sx: int,
    sy: int,
    sw: int,
    sh: int,
    pixels: Seq<[u8; 4]>,
)
    requires
        well_shaped(before),
        blit_result(after, before, sx, sy, sw, sh, pixels),
        0 <= sw,
        0 <= sh,
        sw * sh <= pixels.len(),
        forall|i: int| 0 <= i < pixels.len() ==> (#[trigger] pixels[i])[3] == 0,
    ensures
        after.pixels() == before.pixels(),
{
    assert forall|x: int, y: int| before.in_bounds(x, y) implies #[trigger] after.at(x, y)
        == before.at(x, y) by {
        if sprite_covers(sx, sy, sw, sh, x, y) {
            lemma_cell_index(x - sx, y - sy, sw, sh);
            assert(pixels[(y - sy) * sw + (x - sx)][3] == 0);
        }
    }
    lemma_cells_agree(after, before);
}

/// A fully opaque source channel replaces the destination channel.
proof fn lemma_blend_opaque(src: u8, dst: u8)
    ensures
        blend_channel(src, dst, 255) == src,
{
    assert(blend_channel(src, dst, 255) == src) by (nonlinear_arith)
        requires
            blend_channel(src, dst, 255) == (src * 255 + dst * (255 - 255)) / 255,
    ;
}

/// Blitting a fully opaque sprite that lies wholly inside the canvas copies
/// its pixels exactly, alpha included (which is 255).
pub proof fn lemma_opaque_blit(
    after: PixelBuffer,
    before: PixelBuffer,
    sx: int,
    sy: int,
    sw: int,
    sh: int,
    pixels: Seq<[u8; 4]>,
)
    requires
        blit_result(after, before, sx, sy, sw, sh, pixels),
        0 <= sw,
        0 <= sh,
        sw * sh <= pixels.len(),
        forall|i: int| 0 <= i < pixels.len() ==> (#[trigger] pixels[i])[3] == 255,
        0 <= sx,
        0 <= sy,
        sx + sw <= before.spec_width(),
        sy + sh <= before.spec_height(),
    ensures
        forall|i: int, j: int|
            0 <= i < sw && 0 <= j < sh ==> #[trigger] after.at(sx + i, sy + j) == sprite_pixel(
                pixels,
                sw,
                i,
                j,
            ),
{
    assert forall|i: int, j: int| 0 <= i < sw && 0 <= j < sh implies #[trigger] after.at(
        sx + i,
        sy + j,
    ) == sprite_pixel(pixels, sw, i, j) by {
        lemma_cell_index(i, j, sw, sh);
        let s = sprite_pixel(pixels, sw, i, j);
        let d = before.at(sx + i, sy + j);
        let o = after.at(sx + i, sy + j);
        assert(sprite_covers(sx, sy, sw, sh, sx + i, sy + j));
        assert(s[3] == 255);
        lemma_blend_opaque(s[0], d[0]);
        lemma_blend_opaque(s[1], d[1]);
        lemma_blend_opaque(s[2], d[2]);
        assert(o =~= s);
    }
}

} // verus!
