//! Peg-ring geometry: pixel coordinates and the evenly spaced ring of pegs
//! on the circle inscribed in the image square.
//!
//! All trigonometry is exact integer fixed-point arithmetic: the sine of a
//! rational fraction of a half turn is computed with Bhaskara I's rational
//! approximation, scaled by `SCALE`. This keeps every coordinate a pure
//! integer function of the inputs, stated exactly in the contracts.

use vstd::prelude::*;

verus! {

/// A pixel coordinate on the square image, `0 <= x, y < image_size`.
#[derive(Debug, PartialEq, Eq, Structural, Clone, Copy)]
pub struct Point {
    pub x: u16,
    pub y: u16,
}

/// Fixed-point scale: trigonometric values are scaled so that 1.0 is `SCALE`.
pub const SCALE: u64 = 65536;

/// Bhaskara I's approximation of `sin(pi * p / q)` for `0 <= p <= q`,
/// scaled by `SCALE`: `16 f (1 - f) / (5 - 4 f (1 - f))` with `f = p / q`,
/// cleared of denominators.
pub open spec fn half_turn_sine(p: int, q: int) -> int
    recommends
        0 <= p <= q,
        1 <= q,
{
    (16 * (p * (q - p)) * (SCALE as int)) / (5 * (q * q) - 4 * (p * (q - p)))
}

/// Scaled sine of `pi * p / q` for any `p >= 0`, by reducing `p` modulo a
/// full turn (`2 q`) and negating on the second half turn.
pub open spec fn circle_sine(p: int, q: int) -> int
    recommends
        0 <= p,
        1 <= q,
{
    let m = p % (2 * q);
    if m <= q {
        half_turn_sine(m, q)
    } else {
        -half_turn_sine(m - q, q)
    }
}

/// `half + c * half / SCALE`, with the division taken on the magnitude of
/// `c` (truncation toward zero, as the executable code computes it).
pub open spec fn center_offset(c: int, half: int) -> int {
    if c >= 0 {
        half + (c * half) / (SCALE as int)
    } else {
        half - ((-c) * half) / (SCALE as int)
    }
}

/// Clamps an integer to the valid coordinate range `[0, size - 1]`.
pub open spec fn clamp_coord(v: int, size: int) -> int {
    if v < 0 {
        0
    } else if v > size - 1 {
        size - 1
    } else {
        v
    }
}

/// The x coordinate of peg `i` out of `n` on a ring inscribed in a square of
/// `size` pixels: `cos(2 pi i / n) * size/2 + size/2`, clamped to the image.
pub open spec fn peg_x(i: int, n: int, size: int) -> int {
    clamp_coord(center_offset(circle_sine(n + 4 * i, 2 * n), size / 2), size)
}

/// The y coordinate of peg `i` out of `n`:
/// `sin(2 pi i / n) * size/2 + size/2`, clamped to the image.
pub open spec fn peg_y(i: int, n: int, size: int) -> int {
    clamp_coord(center_offset(circle_sine(4 * i, 2 * n), size / 2), size)
}

/// The position of peg `i` on the ring.
pub open spec fn peg_point(i: int, n: int, size: int) -> Point {
    Point { x: peg_x(i, n, size) as u16, y: peg_y(i, n, size) as u16 }
}

/// The full ring: the positions of all `n` pegs in order.
pub open spec fn ring(n: int, size: int) -> Seq<Point> {
    Seq::new(n as nat, |i: int| peg_point(i, n, size))
}

/// Clamps `num` to at most `max`.
pub fn constrain(num: usize, max: usize) -> (r: usize)
    ensures
        r == if num <= max { num as int } else { max as int },
{
    if max < num {
        return max;
    }
    num
}

/// Scaled sine on the first half turn, `sin(pi * p / q) * SCALE`.
fn bhaskara_sine(p: u64, q: u64) -> (r: u64)
    requires
        p <= q,
        1 <= q <= 131072,
    ensures
        r == half_turn_sine(p as int, q as int),
        r <= SCALE,
{
    proof {
        assert(4 * ((p as int) * (q - p)) <= (q as int) * (q as int)) by (nonlinear_arith)
            requires
                0 <= p <= q,
        ;
        assert((q as int) * (q as int) <= 131072 * 131072) by (nonlinear_arith)
            requires
                0 < q <= 131072,
        ;
    }
    let u: u64 = p * (q - p);
    let qq: u64 = q * q;
    proof {
        assert((q as int) * (q as int) >= 1) by (nonlinear_arith)
            requires
                q >= 1,
        ;
    }
    let num: u64 = 16 * u * SCALE;
    let den: u64 = 5 * qq - 4 * u;
    let r: u64 = num / den;
    proof {
        // num <= SCALE * den, so the quotient is at most SCALE.
        assert(16 * (u as int) * (SCALE as int) <= (SCALE as int) * (5 * q * q - 4 * u))
            by (nonlinear_arith)
            requires
                4 * (u as int) <= (q as int) * (q as int),
                0 <= u,
                0 < q,
        ;
        assert(num as int / den as int <= SCALE as int) by {
            vstd::arithmetic::div_mod::lemma_div_is_ordered(
                num as int,
                (SCALE as int) * (den as int),
                den as int,
            );
            vstd::arithmetic::div_mod::lemma_div_by_multiple(SCALE as int, den as int);
        }
    }
    r
}

/// Scaled sine of `pi * p / q`, any number of turns, `|r| <= SCALE`.
fn sine_scaled(p: u64, q: u64) -> (r: i64)
    requires
        1 <= q <= 131072,
    ensures
        r == circle_sine(p as int, q as int),
        -(SCALE as int) <= r <= SCALE as int,
{
    let m: u64 = p % (2 * q);
    if m <= q {
        bhaskara_sine(m, q) as i64
    } else {
        -(bhaskara_sine(m - q, q) as i64)
    }
}

/// The positions of `circle_points` pegs evenly spaced on the circle
/// inscribed in a square image of `image_size` pixels on each side.
/// Every coordinate lies within the image bounds.
pub fn circle_coords(image_size: usize, circle_points: usize) -> (r: Vec<Point>)
    requires
        1 <= image_size <= 32767,
        1 <= circle_points <= 32767,
    ensures
        r@.len() == circle_points,
        forall|i: int|
            0 <= i < circle_points ==> r@[i] == peg_point(
                i,
                circle_points as int,
                image_size as int,
            ),
        forall|i: int|
            0 <= i < circle_points ==> r@[i].x < image_size && r@[i].y < image_size,
        r@ == ring(circle_points as int, image_size as int),
{
    let mut coords: Vec<Point> = Vec::new();
    let half: u64 = (image_size / 2) as u64;
    let q: u64 = 2 * (circle_points as u64);
    for i in 0..circle_points
        invariant
            1 <= image_size <= 32767,
            1 <= circle_points <= 32767,
            half == (image_size as int) / 2,
            q == 2 * circle_points,
            coords@.len() == i,
            forall|j: int|
                0 <= j < i ==> coords@[j] == peg_point(
                    j,
                    circle_points as int,
                    image_size as int,
                ),
            forall|j: int|
                0 <= j < i ==> coords@[j].x < image_size && coords@[j].y < image_size,
    {
        let c: i64 = sine_scaled(circle_points as u64 + 4 * (i as u64), q);
        let s: i64 = sine_scaled(4 * (i as u64), q);
        let x: u16 = project(c, half, image_size);
        let y: u16 = project(s, half, image_size);
        proof {
            assert(x == peg_x(i as int, circle_points as int, image_size as int));
            assert(y == peg_y(i as int, circle_points as int, image_size as int));
        }
        coords.push(Point { x, y });
    }
    proof {
        assert(coords@ =~= ring(circle_points as int, image_size as int));
    }
    coords
}

/// Maps a scaled trigonometric value `c` to a pixel coordinate:
/// `half + c * half / SCALE`, clamped to `[0, size - 1]`.
fn project(c: i64, half: u64, size: usize) -> (r: u16)
    requires
        1 <= size <= 32767,
        half == (size as int) / 2,
        -(SCALE as int) <= c <= SCALE as int,
    ensures
        r == clamp_coord(center_offset(c as int, half as int), size as int),
        r < size,
{
    proof {
        assert(forall|a: int, b: int|
            0 <= a <= 65536 && 0 <= b <= 16383 ==> #[trigger] (a * b) <= 65536 * 16383)
            by (nonlinear_arith);
    }
    let offset: u64 = if c >= 0 {
        ((c as u64) * half) / SCALE
    } else {
        (((-c) as u64) * half) / SCALE
    };
    let raw: i64 = if c >= 0 {
        (half as i64) + (offset as i64)
    } else {
        (half as i64) - (offset as i64)
    };
    if raw < 0 {
        0
    } else if raw > (size as i64) - 1 {
        (size - 1) as u16
    } else {
        raw as u16
    }
}

} // verus!
