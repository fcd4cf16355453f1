//! Integer helpers shared by the camera and the compositor.

use vstd::prelude::*;
use vstd::arithmetic::div_mod::{lemma_fundamental_div_mod, lemma_fundamental_div_mod_converse};

verus! {

/// The mathematical floor of `a / b` for a nonzero divisor.
pub open spec fn floor_div(a: int, b: int) -> int
    recommends
        b != 0,
{
    if b > 0 {
        a / b
    } else {
        (-a) / (-b)
    }
}

/// Dividing a negated dividend rounds the quotient down by one unless the
/// division is exact.
proof fn lemma_div_of_negation(a: int, b: int)
    requires
        a >= 0,
        b > 0,
    ensures
        (-a) / b == -(a / b) - (if a % b == 0 { 0int } else { 1int }),
{
    lemma_fundamental_div_mod(a, b);
    let t = a / b;
    let m = a % b;
    if m == 0 {
        assert(-a == (-t) * b + 0) by (nonlinear_arith)
            requires
                a == b * t + m,
                m == 0,
        ;
        lemma_fundamental_div_mod_converse(-a, b, -t, 0);
    } else {
        assert(-a == (-t - 1) * b + (b - m)) by (nonlinear_arith)
            requires
                a == b * t + m,
        ;
        lemma_fundamental_div_mod_converse(-a, b, -t - 1, b - m);
    }
}

/// Integer division that rounds toward negative infinity.
pub fn div_to_floor(a: i32, b: i32) -> (r: i32)
    requires
        b != 0,
        !(a == i32::MIN && b == -1),
    ensures
        r as int == floor_div(a as int, b as int),
{
    let (n, d): (i64, i64) = if b < 0 {
        (-(a as i64), -(b as i64))
    } else {
        (a as i64, b as i64)
    };
    let q: i64 = if n >= 0 {
        n / d
    } else {
        proof {
            lemma_div_of_negation(-n, d as int);
        }
        let t = (-n) / d;
        if (-n) % d == 0 {
            -t
        } else {
            -t - 1
        }
    };
    proof {
        lemma_fundamental_div_mod(n as int, d as int);
        if a as int == i32::MIN && b < 0 {
            assert(d >= 2);
        }
        assert(i32::MIN <= q <= i32::MAX) by (nonlinear_arith)
            requires
                q == floor_div(n as int, d as int),
                d > 0,
                i32::MIN <= n <= -(i32::MIN as int),
                n == -(i32::MIN as int) ==> d >= 2,
        ;
    }
    q as i32
}

/// Whether the rectangle `[sx, sx + sw) x [sy, sy + sh)` meets the viewport
/// `[0, vw) x [0, vh)`.
pub open spec fn rects_meet(sx: int, sy: int, sw: int, sh: int, vw: int, vh: int) -> bool {
    !(sx >= vw || sy >= vh || sx + sw <= 0 || sy + sh <= 0)
}

/// Whether a sprite's screen rectangle intersects the viewport.
pub fn sprite_visible(sx: i32, sy: i32, sw: i32, sh: i32, vw: i32, vh: i32) -> (r: bool)
    ensures
        r == rects_meet(sx as int, sy as int, sw as int, sh as int, vw as int, vh as int),
{
    !(sx >= vw || sy >= vh || sx as i64 + sw as i64 <= 0 || sy as i64 + sh as i64 <= 0)
}

/// `v` clamped to the range of `i32`.
pub open spec fn saturate_i32(v: int) -> int {
    if v < i32::MIN {
        i32::MIN as int
    } else if v > i32::MAX {
        i32::MAX as int
    } else {
        v
    }
}

/// `v` clamped to the range of `i32`, computed.
pub fn clamp_to_i32(v: i128) -> (r: i32)
    ensures
        r == saturate_i32(v as int),
{
    if v < i32::MIN as i128 {
        i32::MIN
    } else if v > i32::MAX as i128 {
        i32::MAX
    } else {
        v as i32
    }
}

/// Floor division of a wide dividend by a positive divisor.
pub fn floor_div_wide(n: i128, d: i128) -> (q: i128)
    requires
        d > 0,
        n > i128::MIN,
    ensures
        q == floor_div(n as int, d as int),
{
    if n >= 0 {
        n / d
    } else {
        proof {
            lemma_div_of_negation(-n, d as int);
            lemma_fundamental_div_mod(-n as int, d as int);
        }
        let t = (-n) / d;
        if (-n) % d == 0 {
            -t
        } else {
            -t - 1
        }
    }
}

} // verus!
