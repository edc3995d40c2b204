//! What holds of the group operations on every curve over a prime field.

use vstd::prelude::*;
use vstd::arithmetic::div_mod::{
    lemma_small_mod, lemma_add_mod_noop_right, lemma_mod_add_multiples_vanish,
    lemma_mod_multiples_vanish,
};
use vstd::arithmetic::power::lemma_pow0;
use vstd::arithmetic::power2::is_pow2;
use crate::number_theory::{
    is_prime, gcd, lemma_euclid, lemma_cancel, lemma_congruent_iff, lemma_congruent_mul,
    lemma_congruent_powers, lemma_congruent_add, lemma_multiple_times, lemma_multiples_add,
};
use crate::field_arith::{
    reduce_signed, field_div, mod_pow, lemma_reduce_signed, lemma_reduce_signed_opposite,
    lemma_field_div_is_quotient,
};
use crate::curve_spec::{
    AffinePoint, negated, doubled, sum, multiplied, tangent_slope, chord_slope, in_field,
    on_curve, curve_constant, can_add, can_double, can_multiply, halves_to_two,
    doubles_off_axis,
};

verus! {

/// Negating twice gives the point back.
pub proof fn lemma_negated_twice(f: int, p: AffinePoint)
    ensures
        negated(f, negated(f, p)) == p,
{
}

/// Every point lies on the curve whose constant it determines.
pub proof fn lemma_on_own_curve(f: int, p: AffinePoint)
    requires
        f > 0,
    ensures
        on_curve(f, curve_constant(f, p), p),
{
    let y2: int = p.y * p.y;
    let x3: int = p.x * p.x * p.x;
    lemma_add_mod_noop_right(x3, y2 - x3, f);
}

/// Multiplying by 2 is doubling.
pub proof fn lemma_multiplied_by_two(f: int, p: AffinePoint)
    ensures
        multiplied(f, p, 2) == doubled(f, p),
{
}

/// Multiplying by 4 is doubling twice.
pub proof fn lemma_multiplied_by_four(f: int, p: AffinePoint)
    ensures
        multiplied(f, p, 4) == doubled(f, doubled(f, p)),
{
    reveal_with_fuel(multiplied, 2);
}

/// The line through `(x1, y1)` with slope `m`, put into the curve equation:
/// as integers, what the equation lacks in the point of the line above `x`
/// is `x - x1` times a factor that is quadratic in `x`, less what it lacks
/// in `(x1, y1)`.
proof fn lemma_line_identity(m: int, x1: int, y1: int, x: int)
    ensures
        ({
            let y = m * (x - x1) + y1;
            y * y - x * x * x - (y1 * y1 - x1 * x1 * x1) == (x - x1) * (m * m * (x - x1) + 2 * (m
                * y1) - (x * x + x * x1 + x1 * x1))
        }),
{
    let w: int = x - x1;
    let y: int = m * w + y1;
    let s: int = m * m;
    let l: int = m * y1;
    let q: int = x * x + x * x1 + x1 * x1;
    assert(y * y == s * (w * w) + 2 * (l * w) + y1 * y1) by (nonlinear_arith)
        requires
            y == m * w + y1,
            s == m * m,
            l == m * y1,
    ;
    assert(x * x * x - x1 * x1 * x1 == w * q) by (nonlinear_arith)
        requires
            w == x - x1,
            q == x * x + x * x1 + x1 * x1,
    ;
    assert(w * (s * w + 2 * l - q) == s * (w * w) + 2 * (l * w) - w * q) by (nonlinear_arith);
}

/// The tangent in `(x, y)` with slope `m` meets the curve again in
/// `(m^2 - 2x, -(m(3x - m^2) - y))`: as integers, the curve equation in the
/// new point differs from that in the old one by a multiple of `2my - 3x^2`.
proof fn lemma_tangent_identity(m: int, x: int, y: int)
    ensures
        ({
            let x2 = m * m - 2 * x;
            let y2 = m * (3 * x - m * m) - y;
            y2 * y2 - x2 * x2 * x2 - (y * y - x * x * x) == (m * m - 3 * x) * (2 * (m * y) - 3 * (x
                * x))
        }),
{
    let x2: int = m * m - 2 * x;
    let y2: int = m * (3 * x - m * m) - y;
    // the point of the tangent above x2 is the mirror image of (x2, y2)
    let yt: int = m * (x2 - x) + y;
    lemma_line_identity(m, x, y, x2);
    assert(yt * yt == y2 * y2) by (nonlinear_arith)
        requires
            yt == m * (x2 - x) + y,
            y2 == m * (3 * x - m * m) - y,
            x2 == m * m - 2 * x,
    ;
    assert(m * m * (x2 - x) + 2 * (m * y) - (x2 * x2 + x2 * x + x * x) == 2 * (m * y) - 3 * (x * x))
        by (nonlinear_arith)
        requires
            x2 == m * m - 2 * x,
    ;
}

/// Over the field of two elements doubling leaves a point with `y == 1`
/// where it is.
proof fn lemma_doubled_in_field_of_two(p: AffinePoint)
    requires
        in_field(2, p),
        p.y == 1,
    ensures
        doubled(2, p) == p,
{
    reveal_with_fuel(gcd, 3);
    lemma_pow0(1);
    lemma_pow0(2);
    let x: int = p.x;
    if x == 0 {
        assert(3 * x * x == 0) by (nonlinear_arith)
            requires
                x == 0,
        ;
        assert(gcd(0, 2) == 2);
        assert(mod_pow(2, 1, 0) == 1);
        assert(0 * 1 == 0);
        assert(field_div(2, 0, 2) == 0);
        let m: int = tangent_slope(2, p);
        assert(m == 0);
        assert(m * m == 0 && m * (3 * x - m * m) == 0) by (nonlinear_arith)
            requires
                m == 0,
        ;
    } else {
        assert(3 * x * x == 3) by (nonlinear_arith)
            requires
                x == 1,
        ;
        assert(gcd(3, 2) == 1);
        assert(mod_pow(2, 2, 0) == 1);
        assert(3 * 1 == 3);
        assert(field_div(2, 3, 2) == 1);
        let m: int = tangent_slope(2, p);
        assert(m == 1);
        assert(m * m == 1 && m * (3 * x - m * m) == 2) by (nonlinear_arith)
            requires
                m == 1,
                x == 1,
        ;
    }
}

/// In a prime field other than that of two elements the tangent slope is
/// the quotient `3x^2 / 2y`: an element `m` of `[0, f)` with `m 2y = 3x^2`.
pub proof fn lemma_tangent_slope(f: int, p: AffinePoint)
    requires
        is_prime(f),
        f != 2,
        in_field(f, p),
        p.y != 0,
    ensures
        0 <= tangent_slope(f, p) < f,
        (tangent_slope(f, p) * (2 * p.y)) % f == (3 * p.x * p.x) % f,
{
    let x: int = p.x;
    let y: int = p.y;
    // the denominator 2y is no multiple of f
    assert((2 * y) % f != 0) by {
        lemma_small_mod(2, f as nat);
        lemma_small_mod(y as nat, f as nat);
        if (2 * y) % f == 0 {
            lemma_euclid(f, 2, y);
        }
    }
    assert(3 * x * x >= 0) by (nonlinear_arith);
    lemma_field_div_is_quotient(f, (3 * x * x) as nat, (2 * y) as nat);
}

/// Doubling stays on the curve: where `p` lies on `y^2 = x^3 + b` over a
/// prime field and `p.y` is not 0, so does `2p`.
pub proof fn lemma_doubled_on_curve(f: int, b: int, p: AffinePoint)
    requires
        is_prime(f),
        in_field(f, p),
        p.y != 0,
        on_curve(f, b, p),
    ensures
        on_curve(f, b, doubled(f, p)),
{
    if f == 2 {
        lemma_doubled_in_field_of_two(p);
    } else {
        let x: int = p.x;
        let y: int = p.y;
        let m: int = tangent_slope(f, p);
        lemma_tangent_slope(f, p);
        let d: int = 2 * (m * y) - 3 * (x * x);
        assert(d % f == 0) by {
            assert(d == m * (2 * y) - 3 * x * x) by (nonlinear_arith)
                requires
                    d == 2 * (m * y) - 3 * (x * x),
            ;
            lemma_congruent_iff(m * (2 * y), 3 * x * x, f);
        }
        let x2: int = m * m - 2 * x;
        let y2: int = m * (3 * x - m * m) - y;
        lemma_tangent_identity(m, x, y);
        lemma_multiple_times(d, m * m - 3 * x, f);
        lemma_congruent_iff(y * y, x * x * x + b, f);
        lemma_multiples_add(y2 * y2 - x2 * x2 * x2 - (y * y - x * x * x), y * y - (x * x * x + b), f);
        assert((y2 * y2) % f == (x2 * x2 * x2 + b) % f) by {
            lemma_congruent_iff(y2 * y2, x2 * x2 * x2 + b, f);
        }
        lemma_reduce_signed(f, x2);
        lemma_reduce_signed(f, y2);
        lemma_on_curve_congruent(f, b, x2, y2, doubled(f, p));
    }
}

/// The curve equation only looks at residues: where it holds of `(x, y)`,
/// it holds of every point whose coordinates are congruent to `x` and `y`.
proof fn lemma_on_curve_congruent(f: int, b: int, x: int, y: int, r: AffinePoint)
    requires
        f > 0,
        (y * y) % f == (x * x * x + b) % f,
        r.x % f == x % f,
        r.y % f == y % f,
    ensures
        on_curve(f, b, r),
{
    lemma_congruent_powers(r.x, x, f);
    lemma_congruent_powers(r.y, y, f);
    lemma_congruent_add(r.x * r.x * r.x, x * x * x, b, b, f);
}

/// A difference of two elements of the field that is not 0 is no multiple
/// of `f`.
proof fn lemma_difference_not_multiple(f: int, a: int, b: int)
    requires
        0 <= a < f,
        0 <= b < f,
        a != b,
    ensures
        (a - b) % f != 0,
{
    if a > b {
        lemma_small_mod((a - b) as nat, f as nat);
    } else {
        lemma_mod_add_multiples_vanish(a - b, f);
        lemma_small_mod((f + (a - b)) as nat, f as nat);
    }
}

/// In a prime field the chord slope is the quotient of the differences: an
/// element `m` of `[0, f)` with `m (q.x - p.x) = q.y - p.y`.
pub proof fn lemma_chord_slope(f: int, p: AffinePoint, q: AffinePoint)
    requires
        is_prime(f),
        in_field(f, p),
        in_field(f, q),
        p.x != q.x,
    ensures
        0 <= chord_slope(f, p, q) < f,
        (chord_slope(f, p, q) * (q.x - p.x)) % f == (q.y - p.y) % f,
{
    let m: int = chord_slope(f, p, q);
    let num: int = reduce_signed(f, q.y - p.y);
    let den: int = reduce_signed(f, q.x - p.x);
    lemma_reduce_signed(f, q.y - p.y);
    lemma_reduce_signed(f, q.x - p.x);
    lemma_difference_not_multiple(f, q.x, p.x);
    lemma_field_div_is_quotient(f, num as nat, den as nat);
    lemma_congruent_mul(m, m, den, q.x - p.x, f);
}

/// Adding stays on the curve: where `p` and `q` differ in `x` and lie on
/// `y^2 = x^3 + b` over a prime field, so does `p + q`.
pub proof fn lemma_sum_on_curve(f: int, b: int, p: AffinePoint, q: AffinePoint)
    requires
        is_prime(f),
        in_field(f, p),
        in_field(f, q),
        p.x != q.x,
        on_curve(f, b, p),
        on_curve(f, b, q),
    ensures
        on_curve(f, b, sum(f, p, q)),
{
    let x1: int = p.x;
    let y1: int = p.y;
    let x2: int = q.x;
    let y2: int = q.y;
    let m: int = chord_slope(f, p, q);
    lemma_chord_slope(f, p, q);
    let c1: int = y1 * y1 - x1 * x1 * x1;
    // what both points of the chord share: the quadratic factor in q
    let k: int = m * m * (x2 - x1) + 2 * (m * y1) - (x2 * x2 + x2 * x1 + x1 * x1);
    assert(k % f == 0) by {
        // the line passes through q
        let t: int = m * (x2 - x1) + y1;
        lemma_congruent_add(m * (x2 - x1), y2 - y1, y1, y1, f);
        assert(t % f == y2 % f);
        lemma_congruent_powers(t, y2, f);
        lemma_congruent_iff(t * t, x2 * x2 * x2 + b, f);
        lemma_congruent_iff(y1 * y1, x1 * x1 * x1 + b, f);
        lemma_multiples_add(t * t - (x2 * x2 * x2 + b), y1 * y1 - (x1 * x1 * x1 + b), f);
        lemma_line_identity(m, x1, y1, x2);
        assert(((x2 - x1) * k) % f == 0);
        lemma_difference_not_multiple(f, x2, x1);
        lemma_euclid(f, x2 - x1, k);
    }
    // the third point of the line on the curve
    let x3: int = m * m - (x1 + x2);
    let y3: int = m * (x3 - x1) + y1;
    assert((y3 * y3) % f == (x3 * x3 * x3 + b) % f) by {
        lemma_line_identity(m, x1, y1, x3);
        assert(m * m * (x3 - x1) + 2 * (m * y1) - (x3 * x3 + x3 * x1 + x1 * x1) == k)
            by (nonlinear_arith)
            requires
                x3 == m * m - (x1 + x2),
                k == m * m * (x2 - x1) + 2 * (m * y1) - (x2 * x2 + x2 * x1 + x1 * x1),
        ;
        lemma_multiple_times(k, x3 - x1, f);
        lemma_congruent_iff(y1 * y1, x1 * x1 * x1 + b, f);
        lemma_multiples_add(y3 * y3 - x3 * x3 * x3 - c1, y1 * y1 - (x1 * x1 * x1 + b), f);
        lemma_congruent_iff(y3 * y3, x3 * x3 * x3 + b, f);
    }
    // the sum is its mirror image, coordinate by coordinate up to multiples of f
    let r: AffinePoint = sum(f, p, q);
    lemma_reduce_signed(f, x3);
    let ya: int = m * x1 - (m * r.x + y1);
    lemma_reduce_signed(f, ya);
    assert(r.y % f == (-y3) % f) by {
        assert(ya - (-y3) == m * (x3 - r.x)) by (nonlinear_arith)
            requires
                ya == m * x1 - (m * r.x + y1),
                y3 == m * (x3 - x1) + y1,
        ;
        lemma_congruent_iff(x3, r.x, f);
        lemma_multiple_times(x3 - r.x, m, f);
        lemma_congruent_iff(ya, -y3, f);
    }
    assert((-y3) * (-y3) == y3 * y3) by (nonlinear_arith);
    lemma_on_curve_congruent(f, b, x3, -y3, r);
}

/// The chord from `p` to `q` and the chord from `q` to `p` have one slope.
pub proof fn lemma_chord_slope_symmetric(f: int, p: AffinePoint, q: AffinePoint)
    requires
        is_prime(f),
        in_field(f, p),
        in_field(f, q),
        p.x != q.x,
    ensures
        chord_slope(f, p, q) == chord_slope(f, q, p),
{
    let m: int = chord_slope(f, p, q);
    let n: int = chord_slope(f, q, p);
    let dx: int = q.x - p.x;
    let dy: int = q.y - p.y;
    lemma_chord_slope(f, p, q);
    lemma_chord_slope(f, q, p);
    // n (-dx) = -dy, so n dx = dy = m dx
    lemma_congruent_mul(n * (p.x - q.x), p.y - q.y, -1, -1, f);
    assert((n * (p.x - q.x)) * (-1) == dx * n) by (nonlinear_arith)
        requires
            dx == q.x - p.x,
    ;
    assert((p.y - q.y) * (-1) == dy);
    assert(m * dx == dx * m) by (nonlinear_arith);
    lemma_difference_not_multiple(f, q.x, p.x);
    lemma_cancel(f, dx, m, n);
    lemma_small_mod(m as nat, f as nat);
    lemma_small_mod(n as nat, f as nat);
}

/// Adding is commutative.
pub proof fn lemma_sum_commutes(f: int, p: AffinePoint, q: AffinePoint)
    requires
        is_prime(f),
        in_field(f, p),
        in_field(f, q),
        p.x != q.x,
    ensures
        sum(f, p, q) == sum(f, q, p),
{
    let m: int = chord_slope(f, p, q);
    lemma_chord_slope_symmetric(f, p, q);
    lemma_chord_slope(f, p, q);
    let x3: int = sum(f, p, q).x;
    assert(x3 == sum(f, q, p).x);
    // both orders put one point of the chord into its equation
    let ya: int = m * p.x - (m * x3 + p.y);
    let yb: int = m * q.x - (m * x3 + q.y);
    assert(yb - ya == m * (q.x - p.x) - (q.y - p.y)) by (nonlinear_arith)
        requires
            ya == m * p.x - (m * x3 + p.y),
            yb == m * q.x - (m * x3 + q.y),
    ;
    lemma_congruent_iff(m * (q.x - p.x), q.y - p.y, f);
    lemma_congruent_iff(yb, ya, f);
}

/// What doubling and adding give are points of the field.
pub proof fn lemma_results_in_field(f: int, p: AffinePoint, q: AffinePoint)
    requires
        f > 0,
    ensures
        in_field(f, doubled(f, p)),
        in_field(f, sum(f, p, q)),
{
    let m: int = tangent_slope(f, p);
    lemma_reduce_signed(f, m * m - 2 * p.x);
    lemma_reduce_signed(f, m * (3 * p.x - m * m) - p.y);
    let n: int = chord_slope(f, p, q);
    let x3: int = reduce_signed(f, n * n - (p.x + q.x));
    lemma_reduce_signed(f, n * n - (p.x + q.x));
    lemma_reduce_signed(f, n * p.x - (n * x3 + p.y));
}

/// The tangent formulas, up to multiples of `f`: over a prime field other
/// than that of two elements, the double of a point with `y != 0` is the
/// point of the field that the slope `m` with `m 2y = 3x^2` gives.
pub proof fn lemma_doubled_formulas(f: int, p: AffinePoint)
    requires
        is_prime(f),
        f != 2,
        in_field(f, p),
        p.y != 0,
    ensures
        ({
            let m = tangent_slope(f, p);
            let r = doubled(f, p);
            &&& 0 <= m < f
            &&& in_field(f, r)
            &&& (m * (2 * p.y) - 3 * p.x * p.x) % f == 0
            &&& (r.x - (m * m - 2 * p.x)) % f == 0
            &&& (r.y - (m * (3 * p.x - m * m) - p.y)) % f == 0
        }),
{
    let m: int = tangent_slope(f, p);
    let r: AffinePoint = doubled(f, p);
    lemma_tangent_slope(f, p);
    lemma_results_in_field(f, p, p);
    lemma_congruent_iff(m * (2 * p.y), 3 * p.x * p.x, f);
    lemma_reduce_signed(f, m * m - 2 * p.x);
    lemma_congruent_iff(r.x, m * m - 2 * p.x, f);
    lemma_reduce_signed(f, m * (3 * p.x - m * m) - p.y);
    lemma_congruent_iff(r.y, m * (3 * p.x - m * m) - p.y, f);
}

/// The chord formulas, up to multiples of `f`: over a prime field, the sum
/// of two points with different `x` is the point of the field that the
/// slope `m` with `m (q.x - p.x) = q.y - p.y` gives.
pub proof fn lemma_sum_formulas(f: int, p: AffinePoint, q: AffinePoint)
    requires
        is_prime(f),
        in_field(f, p),
        in_field(f, q),
        p.x != q.x,
    ensures
        ({
            let m = chord_slope(f, p, q);
            let r = sum(f, p, q);
            &&& 0 <= m < f
            &&& in_field(f, r)
            &&& (m * (q.x - p.x) - (q.y - p.y)) % f == 0
            &&& (r.x - (m * m - p.x - q.x)) % f == 0
            &&& (r.y - (m * (p.x - r.x) - p.y)) % f == 0
        }),
{
    let m: int = chord_slope(f, p, q);
    let r: AffinePoint = sum(f, p, q);
    lemma_chord_slope(f, p, q);
    lemma_results_in_field(f, p, q);
    lemma_congruent_iff(m * (q.x - p.x), q.y - p.y, f);
    lemma_reduce_signed(f, m * m - (p.x + q.x));
    lemma_congruent_iff(r.x, m * m - (p.x + q.x), f);
    let ya: int = m * p.x - (m * r.x + p.y);
    lemma_reduce_signed(f, ya);
    lemma_congruent_iff(r.y, ya, f);
    assert(ya == m * (p.x - r.x) - p.y) by (nonlinear_arith)
        requires
            ya == m * p.x - (m * r.x + p.y),
    ;
}

/// Doubling commutes with negating: the double of the mirror image is the
/// mirror image of the double, where that has a `y` other than 0 (the
/// mirror image of a point with `y == 0` has `y == f`, and is no point of
/// the field).
pub proof fn lemma_doubled_of_negated(f: int, p: AffinePoint)
    requires
        is_prime(f),
        in_field(f, p),
        p.y != 0,
        doubled(f, p).y != 0,
    ensures
        doubled(f, negated(f, p)) == negated(f, doubled(f, p)),
{
    let x: int = p.x;
    let y: int = p.y;
    let n: AffinePoint = negated(f, p);
    if f == 2 {
        assert(n == p);
        lemma_doubled_in_field_of_two(p);
    } else {
        let m: int = tangent_slope(f, p);
        let k: int = tangent_slope(f, n);
        lemma_tangent_slope(f, p);
        lemma_tangent_slope(f, n);
        // the slopes are opposite: (-k) 2y = k 2(f - y) = 3x^2 = m 2y
        assert((-k) % f == m % f) by {
            assert(k * (2 * (f - y)) - (2 * y) * (-k) == f * (2 * k)) by (nonlinear_arith);
            lemma_small_mod(0, f as nat);
            lemma_mod_multiples_vanish(2 * k, 0, f);
            lemma_congruent_iff(k * (2 * (f - y)), (2 * y) * (-k), f);
            assert((2 * y) * m == m * (2 * y)) by (nonlinear_arith);
            assert((2 * y) % f != 0) by {
                lemma_small_mod(2, f as nat);
                lemma_small_mod(y as nat, f as nat);
                if (2 * y) % f == 0 {
                    lemma_euclid(f, 2, y);
                }
            }
            lemma_cancel(f, 2 * y, -k, m);
        }
        // so the squares agree, and with them the new x
        lemma_congruent_mul(-k, m, -k, m, f);
        assert((-k) * (-k) == k * k) by (nonlinear_arith);
        lemma_congruent_add(k * k, m * m, 2 * x, 2 * x, f);
        assert(doubled(f, n).x == doubled(f, p).x);
        // and the new y are opposite
        let ym: int = m * (3 * x - m * m) - y;
        let yk: int = k * (3 * x - k * k) - (f - y);
        lemma_congruent_add(3 * x, 3 * x, k * k, m * m, f);
        lemma_congruent_mul(-k, m, 3 * x - k * k, 3 * x - m * m, f);
        assert((-k) * (3 * x - k * k) == -(k * (3 * x - k * k))) by (nonlinear_arith);
        lemma_congruent_add(-(k * (3 * x - k * k)), m * (3 * x - m * m), y, y, f);
        assert((-(k * (3 * x - k * k)) - y) % f == ym % f);
        assert(-(k * (3 * x - k * k)) - y == -yk - f);
        lemma_mod_multiples_vanish(-1, -yk, f);
        assert((-yk) % f == ym % f);
        // yk is the opposite of a number that f does not divide
        lemma_reduce_signed_opposite(f, -yk);
        assert(-(-yk) == yk);
        assert(yk % f == f - ym % f);
    }
}

/// Two points of the field with different `x` can be added.
pub proof fn lemma_can_add(f: int, p: AffinePoint, q: AffinePoint)
    requires
        in_field(f, p),
        in_field(f, q),
        p.x != q.x,
    ensures
        can_add(f, p, q),
{
    lemma_reduce_signed(f, q.x - p.x);
    lemma_difference_not_multiple(f, q.x, p.x);
    lemma_small_mod(0, f as nat);
}

/// What comes out of doubling can be doubled again: over a prime field, a
/// point with `y != 0` never doubles to `(0, 0)`.
pub proof fn lemma_doubled_can_double(f: int, p: AffinePoint)
    requires
        is_prime(f),
        in_field(f, p),
        p.y != 0,
    ensures
        can_double(doubled(f, p)),
{
    if f == 2 {
        lemma_doubled_in_field_of_two(p);
    } else if !can_double(doubled(f, p)) {
        let x: int = p.x;
        let y: int = p.y;
        let m: int = tangent_slope(f, p);
        lemma_tangent_slope(f, p);
        lemma_small_mod(0, f as nat);
        // both coordinates are multiples of f before they are reduced
        lemma_reduce_signed(f, m * m - 2 * x);
        lemma_reduce_signed(f, m * (3 * x - m * m) - y);
        lemma_congruent_iff(m * m, 2 * x, f);
        assert((m * m) % f == (2 * x) % f);
        // so y = m (3x - m^2) = m x
        lemma_congruent_add(3 * x, 3 * x, m * m, 2 * x, f);
        lemma_congruent_mul(m, m, 3 * x - m * m, x, f);
        lemma_congruent_iff(m * (3 * x - m * m), y, f);
        assert(y % f == (m * x) % f);
        // and 3x^2 = 2my = 2 m^2 x = 4x^2
        lemma_congruent_mul(2 * m, 2 * m, y, m * x, f);
        assert((2 * m) * (m * x) == (m * m) * (2 * x)) by (nonlinear_arith);
        assert((2 * m) * y == m * (2 * y)) by (nonlinear_arith);
        lemma_congruent_mul(m * m, 2 * x, 2 * x, 2 * x, f);
        assert((2 * x) * (2 * x) == 4 * (x * x)) by (nonlinear_arith);
        assert(3 * x * x == 3 * (x * x)) by (nonlinear_arith);
        assert((3 * (x * x)) % f == (4 * (x * x)) % f);
        lemma_congruent_iff(4 * (x * x), 3 * (x * x), f);
        assert((x * x) % f == 0);
        lemma_euclid(f, x, x);
        lemma_small_mod(x as nat, f as nat);
        assert(x == 0);
        assert(m * x == 0) by (nonlinear_arith)
            requires
                x == 0,
        ;
        lemma_small_mod(y as nat, f as nat);
        assert(false);
    }
}

/// The numbers that halve to 2 are the powers of two from 2 on.
pub proof fn lemma_halves_to_two_is_power(n: nat)
    ensures
        halves_to_two(n) <==> n >= 2 && is_pow2(n as int),
    decreases n,
{
    reveal(is_pow2);
    if n > 2 {
        lemma_halves_to_two_is_power(n / 2);
        assert(is_pow2(1));
    } else if n == 2 {
        assert(is_pow2(1));
        assert(is_pow2(2));
    }
}

/// A point of a prime field with `y != 0` can be multiplied by 2 and by 4.
pub proof fn lemma_can_multiply_by_four(f: int, p: AffinePoint)
    requires
        is_prime(f),
        in_field(f, p),
        p.y != 0,
    ensures
        halves_to_two(2) && can_multiply(f, p, 2),
        halves_to_two(4) && can_multiply(f, p, 4),
{
    reveal_with_fuel(halves_to_two, 2);
    reveal_with_fuel(can_multiply, 2);
    lemma_doubled_can_double(f, p);
}

/// Multiplying stays on the curve: where `p` lies on `y^2 = x^3 + b` over
/// a prime field and no point that gets doubled has `y == 0`, every doubling
/// can be made, and the multiple lies in the field and on the curve.
pub proof fn lemma_multiplied_on_curve(f: int, b: int, p: AffinePoint, n: nat)
    requires
        is_prime(f),
        in_field(f, p),
        on_curve(f, b, p),
        doubles_off_axis(f, p, n),
    ensures
        can_multiply(f, p, n),
        in_field(f, multiplied(f, p, n)),
        on_curve(f, b, multiplied(f, p, n)),
    decreases n,
{
    if n <= 2 {
        lemma_results_in_field(f, p, p);
        lemma_doubled_on_curve(f, b, p);
    } else {
        let h: AffinePoint = multiplied(f, p, n / 2);
        lemma_multiplied_on_curve(f, b, p, n / 2);
        lemma_results_in_field(f, h, h);
        lemma_doubled_on_curve(f, b, h);
    }
}

} // verus!
