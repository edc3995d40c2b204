//! The group operations as mathematics: what each of them returns, stated
//! over unbounded integers.

use vstd::prelude::*;
use crate::field_arith::{reduce_signed, field_div};

verus! {

/// A point of the plane with integer coordinates: what a `Point` stands for.
pub struct AffinePoint {
    pub x: int,
    pub y: int,
}

/// The mirror image of `p` across the x-axis: `(x, f - y)`.
pub open spec fn negated(f: int, p: AffinePoint) -> AffinePoint {
    AffinePoint { x: p.x, y: f - p.y }
}

/// The slope of the tangent in `p`: `3x^2 / 2y` in the field.
pub open spec fn tangent_slope(f: int, p: AffinePoint) -> int {
    field_div(f, (3 * p.x * p.x) as nat, (2 * p.y) as nat)
}

/// `2p`: with the tangent slope `m`, the point
/// `(m^2 - 2x, m(3x - m^2) - y)`, each coordinate brought into the field.
pub open spec fn doubled(f: int, p: AffinePoint) -> AffinePoint {
    let m = tangent_slope(f, p);
    AffinePoint {
        x: reduce_signed(f, m * m - 2 * p.x),
        y: reduce_signed(f, m * (3 * p.x - m * m) - p.y),
    }
}

/// The slope of the chord from `p` to `q`: `(q.y - p.y) / (q.x - p.x)` in
/// the field, both differences brought into the field first.
pub open spec fn chord_slope(f: int, p: AffinePoint, q: AffinePoint) -> int {
    field_div(f, reduce_signed(f, q.y - p.y) as nat, reduce_signed(f, q.x - p.x) as nat)
}

/// `p + q` for two points with different `x`: with the chord slope `m` and
/// `x3 = m^2 - p.x - q.x`, the point `(x3, m p.x - (m x3 + p.y))`, each
/// coordinate brought into the field (the second one from the reduced `x3`).
pub open spec fn sum(f: int, p: AffinePoint, q: AffinePoint) -> AffinePoint {
    let m = chord_slope(f, p, q);
    let x3 = reduce_signed(f, m * m - (p.x + q.x));
    AffinePoint { x: x3, y: reduce_signed(f, m * p.x - (m * x3 + p.y)) }
}

/// Both coordinates of `p` are elements of the field.
pub open spec fn in_field(f: int, p: AffinePoint) -> bool {
    0 <= p.x < f && 0 <= p.y < f
}

/// `p` satisfies `y^2 = x^3 + b` in the field.
pub open spec fn on_curve(f: int, b: int, p: AffinePoint) -> bool {
    (p.y * p.y) % f == (p.x * p.x * p.x + b) % f
}

/// The constant `b` of the one curve `y^2 = x^3 + b` that `p` lies on.
pub open spec fn curve_constant(f: int, p: AffinePoint) -> int {
    (p.y * p.y - p.x * p.x * p.x) % f
}

/// Whether `p` can be doubled: the tangent slope is a fraction, and `0 / 0`
/// is none.
pub open spec fn can_double(p: AffinePoint) -> bool {
    p.x != 0 || p.y != 0
}

/// Whether `p` and `q` can be added: they differ in `x`, and the chord slope
/// is not the fraction `0 / 0`.
pub open spec fn can_add(f: int, p: AffinePoint, q: AffinePoint) -> bool {
    &&& p.x != q.x
    &&& (reduce_signed(f, q.y - p.y) != 0 || reduce_signed(f, q.x - p.x) != 0)
}

/// Whether halving `n` again and again arrives at 2 and meets nothing odd on
/// the way: `n` is one of 2, 4, 8, 16, ...
pub open spec fn halves_to_two(n: nat) -> bool
    decreases n,
{
    n == 2 || (n > 2 && n % 2 == 0 && halves_to_two(n / 2))
}

/// `n p` for one of those `n`: `p` doubled once for `n == 2` and once more
/// for each halving that it takes to bring `n` down to 2. It says nothing
/// of any other `n`: one below 2 is taken for 2.
pub open spec fn multiplied(f: int, p: AffinePoint, n: nat) -> AffinePoint
    decreases n,
{
    if n <= 2 {
        doubled(f, p)
    } else {
        doubled(f, multiplied(f, p, n / 2))
    }
}

/// Whether every doubling that `multiplied(f, p, n)` takes can be made.
pub open spec fn can_multiply(f: int, p: AffinePoint, n: nat) -> bool
    decreases n,
{
    if n <= 2 {
        can_double(p)
    } else {
        can_multiply(f, p, n / 2) && can_double(multiplied(f, p, n / 2))
    }
}

/// Whether every point that `multiplied(f, p, n)` doubles has a `y` other
/// than 0, so that each of its tangents has a slope.
pub open spec fn doubles_off_axis(f: int, p: AffinePoint, n: nat) -> bool
    decreases n,
{
    if n <= 2 {
        p.y != 0
    } else {
        doubles_off_axis(f, p, n / 2) && multiplied(f, p, n / 2).y != 0
    }
}

} // verus!
