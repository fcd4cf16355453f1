//! The camera: a translation and a rational zoom between integer world
//! coordinates and canvas pixels.

use vstd::prelude::*;
use crate::arith::{floor_div, floor_div_wide, clamp_to_i32, saturate_i32};
use crate::error::EngineError;

verus! {

/// Maps world coordinates to canvas pixels and back. The zoom is the
/// fraction `zoom_num / zoom_den`.
pub struct Camera {
    x: i32,
    y: i32,
    viewport_w: u32,
    viewport_h: u32,
    zoom_num: u32,
    zoom_den: u32,
}

/// The screen coordinate of world coordinate `w` on one axis, before
/// clamping: `floor((w - origin) * num / den)`.
pub open spec fn to_screen(w: int, origin: int, num: int, den: int) -> int {
    floor_div((w - origin) * num, den)
}

/// The world coordinate of screen coordinate `s` on one axis, before
/// clamping: `floor(s * den / num) + origin`.
pub open spec fn to_world(s: int, origin: int, num: int, den: int) -> int {
    floor_div(s * den, num) + origin
}

/// The first tile index on one axis that the camera at `origin` sees.
pub open spec fn first_tile(origin: int, tile: int) -> int {
    floor_div(origin, tile)
}

impl Camera {
    #[verifier::type_invariant]
    spec fn valid(self) -> bool {
        &&& self.viewport_w > 0
        &&& self.viewport_h > 0
        &&& self.zoom_num > 0
        &&& self.zoom_den > 0
    }

    /// World position, horizontal.
    pub closed spec fn spec_x(&self) -> int {
        self.x as int
    }

    /// World position, vertical.
    pub closed spec fn spec_y(&self) -> int {
        self.y as int
    }

    /// Viewport width in pixels.
    pub closed spec fn spec_viewport_w(&self) -> int {
        self.viewport_w as int
    }

    /// Viewport height in pixels.
    pub closed spec fn spec_viewport_h(&self) -> int {
        self.viewport_h as int
    }

    /// Zoom numerator.
    pub closed spec fn spec_zoom_num(&self) -> int {
        self.zoom_num as int
    }

    /// Zoom denominator.
    pub closed spec fn spec_zoom_den(&self) -> int {
        self.zoom_den as int
    }

    /// A camera at the world origin with zoom 1 over a `viewport_w` by
    /// `viewport_h` viewport; an empty viewport is refused.
    pub fn new(viewport_w: u32, viewport_h: u32) -> (r: Result<Camera, EngineError>)
        ensures
            viewport_w == 0 || viewport_h == 0 <==> r is Err,
            r is Err ==> r == Err::<Camera, EngineError>(EngineError::EmptyDimensions),
            r is Ok ==> {
                let c = r->Ok_0;
                &&& c.spec_x() == 0
                &&& c.spec_y() == 0
                &&& c.spec_viewport_w() == viewport_w
                &&& c.spec_viewport_h() == viewport_h
                &&& c.spec_zoom_num() == 1
                &&& c.spec_zoom_den() == 1
            },
    {
        if viewport_w == 0 || viewport_h == 0 {
            Err(EngineError::EmptyDimensions)
        } else {
            Ok(Camera { x: 0, y: 0, viewport_w, viewport_h, zoom_num: 1, zoom_den: 1 })
        }
    }

    /// World position, horizontal.
    pub fn x(&self) -> (r: i32)
        ensures
            r == self.spec_x(),
    {
        self.x
    }

    /// World position, vertical.
    pub fn y(&self) -> (r: i32)
        ensures
            r == self.spec_y(),
    {
        self.y
    }

    /// Viewport width in pixels.
    pub fn viewport_w(&self) -> (r: u32)
        ensures
            r == self.spec_viewport_w(),
    {
        self.viewport_w
    }

    /// Viewport height in pixels.
    pub fn viewport_h(&self) -> (r: u32)
        ensures
            r == self.spec_viewport_h(),
    {
        self.viewport_h
    }

    /// Zoom numerator.
    pub fn zoom_num(&self) -> (r: u32)
        ensures
            r == self.spec_zoom_num(),
            r > 0,
    {
        proof {
            use_type_invariant(self);
        }
        self.zoom_num
    }

    /// Zoom denominator.
    pub fn zoom_den(&self) -> (r: u32)
        ensures
            r == self.spec_zoom_den(),
            r > 0,
    {
        proof {
            use_type_invariant(self);
        }
        self.zoom_den
    }

    /// Moves the camera to world position `(x, y)`.
    pub fn set_position(&mut self, x: i32, y: i32)
        ensures
            final(self).spec_x() == x,
            final(self).spec_y() == y,
            final(self).spec_viewport_w() == old(self).spec_viewport_w(),
            final(self).spec_viewport_h() == old(self).spec_viewport_h(),
            final(self).spec_zoom_num() == old(self).spec_zoom_num(),
            final(self).spec_zoom_den() == old(self).spec_zoom_den(),
    {
        proof {
            use_type_invariant(&*self);
        }
        self.x = x;
        self.y = y;
    }

    /// Sets the zoom to `num / den`; a zero part is refused and leaves the
    /// camera unchanged.
    pub fn set_zoom(&mut self, num: u32, den: u32) -> (r: Result<(), EngineError>)
        ensures
            num == 0 || den == 0 <==> r is Err,
            r is Err ==> r == Err::<(), EngineError>(EngineError::InvalidZoom) && *final(self)
                == *old(self),
            r is Ok ==> final(self).spec_zoom_num() == num && final(self).spec_zoom_den() == den,
            final(self).spec_x() == old(self).spec_x(),
            final(self).spec_y() == old(self).spec_y(),
            final(self).spec_viewport_w() == old(self).spec_viewport_w(),
            final(self).spec_viewport_h() == old(self).spec_viewport_h(),
    {
        if num == 0 || den == 0 {
            return Err(EngineError::InvalidZoom);
        }
        proof {
            use_type_invariant(&*self);
        }
        self.zoom_num = num;
        self.zoom_den = den;
        Ok(())
    }

    /// The canvas pixel of world point `(wx, wy)`, rounded toward negative
    /// infinity and clamped to the range of `i32`.
    pub fn world_to_screen(&self, wx: i32, wy: i32) -> (r: (i32, i32))
        ensures
            r.0 == saturate_i32(
                to_screen(wx as int, self.spec_x(), self.spec_zoom_num(), self.spec_zoom_den()),
            ),
            r.1 == saturate_i32(
                to_screen(wy as int, self.spec_y(), self.spec_zoom_num(), self.spec_zoom_den()),
            ),
    {
        proof {
            use_type_invariant(self);
        }
        (
            axis_to_screen(wx, self.x, self.zoom_num, self.zoom_den),
            axis_to_screen(wy, self.y, self.zoom_num, self.zoom_den),
        )
    }

    /// The world point at canvas pixel `(sx, sy)`, rounded toward negative
    /// infinity and clamped to the range of `i32`.
    pub fn screen_to_world(&self, sx: i32, sy: i32) -> (r: (i32, i32))
        ensures
            r.0 == saturate_i32(
                to_world(sx as int, self.spec_x(), self.spec_zoom_num(), self.spec_zoom_den()),
            ),
            r.1 == saturate_i32(
                to_world(sy as int, self.spec_y(), self.spec_zoom_num(), self.spec_zoom_den()),
            ),
    {
        proof {
            use_type_invariant(self);
        }
        (
            axis_to_world(sx, self.x, self.zoom_num, self.zoom_den),
            axis_to_world(sy, self.y, self.zoom_num, self.zoom_den),
        )
    }

    /// The half-open range of tile indices `[x0, x1) x [y0, y1)` that covers
    /// the viewport for square tiles of edge `tile_size`: from the tile under
    /// the camera position, the viewport's width (height) in whole tiles
    /// plus two, so that partly visible tiles at both edges are included.
    pub fn visible_tiles(&self, tile_size: u32) -> (r: (i64, i64, i64, i64))
        requires
            tile_size > 0,
        ensures
            r.0 == first_tile(self.spec_x(), tile_size as int),
            r.1 == first_tile(self.spec_y(), tile_size as int),
            r.2 == r.0 + self.spec_viewport_w() / (tile_size as int) + 2,
            r.3 == r.1 + self.spec_viewport_h() / (tile_size as int) + 2,
    {
        let x0 = floor_div_wide(self.x as i128, tile_size as i128);
        let y0 = floor_div_wide(self.y as i128, tile_size as i128);
        proof {
            lemma_floor_div_bounded(self.x as int, tile_size as int);
            lemma_floor_div_bounded(self.y as int, tile_size as int);
        }
        let tiles_x = (self.viewport_w / tile_size) as i64 + 2;
        let tiles_y = (self.viewport_h / tile_size) as i64 + 2;
        let x0 = x0 as i64;
        let y0 = y0 as i64;
        (x0, y0, x0 + tiles_x, y0 + tiles_y)
    }
}

/// Dividing by a positive divisor does not grow a value's magnitude.
proof fn lemma_floor_div_bounded(a: int, d: int)
    requires
        d > 0,
    ensures
        -abs_int(a) <= floor_div(a, d) <= abs_int(a),
{
    vstd::arithmetic::div_mod::lemma_fundamental_div_mod(a, d);
    assert(-abs_int(a) <= a / d <= abs_int(a)) by (nonlinear_arith)
        requires
            a == d * (a / d) + a % d,
            0 <= a % d < d,
            d > 0,
            abs_int(a) == if a < 0 { -a } else { a },
    ;
}

/// The absolute value of an integer.
pub open spec fn abs_int(v: int) -> int {
    if v < 0 {
        -v
    } else {
        v
    }
}

/// A sprite extent of `n` pixels under zoom `num / den`, rounded up.
pub open spec fn ceil_scaled(n: int, num: int, den: int) -> int {
    if (n * num) % den == 0 {
        (n * num) / den
    } else {
        (n * num) / den + 1
    }
}

/// A sprite extent under the zoom, rounded up and clamped to `i32`.
pub fn scaled_extent(n: u32, num: u32, den: u32) -> (r: i32)
    requires
        den > 0,
    ensures
        r == saturate_i32(ceil_scaled(n as int, num as int, den as int)),
{
    proof {
        assert(n * num <= u32::MAX * u32::MAX) by (nonlinear_arith)
            requires
                n <= u32::MAX,
                num <= u32::MAX,
        ;
    }
    let a = n as u64 * num as u64;
    let q = a / den as u64;
    let c = if a % den as u64 == 0 {
        q
    } else {
        q + 1
    };
    clamp_to_i32(c as i128)
}

/// One axis of `world_to_screen`.
fn axis_to_screen(w: i32, origin: i32, num: u32, den: u32) -> (r: i32)
    requires
        num > 0,
        den > 0,
    ensures
        r == saturate_i32(to_screen(w as int, origin as int, num as int, den as int)),
{
    let d = w as i128 - origin as i128;
    proof {
        assert(-0x1_0000_0000 * 0x1_0000_0000 <= d * num <= 0x1_0000_0000 * 0x1_0000_0000)
            by (nonlinear_arith)
            requires
                -0x1_0000_0000 <= d <= 0x1_0000_0000,
                0 <= num <= 0x1_0000_0000,
        ;
    }
    let q = floor_div_wide(d * num as i128, den as i128);
    clamp_to_i32(q)
}

/// One axis of `screen_to_world`.
fn axis_to_world(s: i32, origin: i32, num: u32, den: u32) -> (r: i32)
    requires
        num > 0,
        den > 0,
    ensures
        r == saturate_i32(to_world(s as int, origin as int, num as int, den as int)),
{
    proof {
        assert(-0x1_0000_0000 * 0x1_0000_0000 <= s * den <= 0x1_0000_0000 * 0x1_0000_0000)
            by (nonlinear_arith)
            requires
                -0x1_0000_0000 <= s <= 0x1_0000_0000,
                0 <= den <= 0x1_0000_0000,
        ;
        lemma_floor_div_bounded(s * den, num as int);
    }
    let q = floor_div_wide(s as i128 * den as i128, num as i128);
    clamp_to_i32(q + origin as i128)
}

/// At zoom 1, mapping a world point to the screen and back gives the
/// point itself whenever its offset from the camera fits the screen's
/// coordinate range.
pub proof fn lemma_round_trip_unit_zoom(wx: int, origin: int)
    requires
        i32::MIN <= wx <= i32::MAX,
        i32::MIN <= origin <= i32::MAX,
        i32::MIN <= wx - origin <= i32::MAX,
    ensures
        saturate_i32(to_world(saturate_i32(to_screen(wx, origin, 1, 1)), origin, 1, 1)) == wx,
{
    assert(to_screen(wx, origin, 1, 1) == wx - origin);
    assert(to_world(wx - origin, origin, 1, 1) == wx);
}

/// At any zoom of 1 or more, mapping a world coordinate to the screen and
/// back lands on the coordinate itself or one unit below it, as long as no
/// intermediate value leaves the range of `i32`.
pub proof fn lemma_round_trip_within_one(w: int, origin: int, num: int, den: int)
    requires
        num >= den > 0,
        i32::MIN <= to_screen(w, origin, num, den) <= i32::MAX,
        i32::MIN <= to_world(to_screen(w, origin, num, den), origin, num, den) <= i32::MAX,
    ensures
        w - 1 <= saturate_i32(
            to_world(saturate_i32(to_screen(w, origin, num, den)), origin, num, den),
        ) <= w,
{
    let d = w - origin;
    let s = to_screen(w, origin, num, den);
    vstd::arithmetic::div_mod::lemma_fundamental_div_mod(d * num, den);
    vstd::arithmetic::div_mod::lemma_fundamental_div_mod(s * den, num);
    let t = (s * den) / num;
    assert(s == (d * num) / den);
    assert(d - 1 <= t <= d) by (nonlinear_arith)
        requires
            d * num == den * s + (d * num) % den,
            0 <= (d * num) % den < den,
            s * den == num * t + (s * den) % num,
            0 <= (s * den) % num < num,
            num >= den > 0,
    ;
}

} // verus!
