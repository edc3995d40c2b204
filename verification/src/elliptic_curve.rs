//! The curves `y^2 = x^3 + b` over a prime field, and their points.
//!
//! A curve knows its field alone: `b` is whatever the point at hand makes it.
//! There is no point at infinity: two points with the same `x` cannot be
//! added, and what comes of doubling a point with `y == 0` means nothing.
//!
//! Coordinates and the modulus are 32 bits wide. What is computed on the way
//! is kept in 128 bits, so that no modulus is too large for the formulas.

use vstd::prelude::*;
use vstd::arithmetic::power::{pow, lemma_pow0};
use vstd::arithmetic::div_mod::{lemma_mul_mod_noop_general, lemma_small_mod};
use crate::number_theory::{
    gcd, is_prime, lemma_gcd_bounds, lemma_gcd_divides, lemma_common_divisor_divides_gcd,
};
use crate::field_arith::{
    mod_pow, reduce_signed, field_div, lemma_square_and_multiply_step, lemma_reduce_signed,
    lemma_field_div_is_quotient, lemma_mod_pow_inverse,
};
use crate::curve_spec::{
    AffinePoint, negated, doubled, sum, multiplied, can_double, can_add, can_multiply,
    halves_to_two, doubles_off_axis, in_field, on_curve, curve_constant,
};
use crate::curve_laws::{
    lemma_on_own_curve, lemma_doubled_on_curve, lemma_doubled_can_double, lemma_sum_on_curve,
    lemma_sum_commutes,
    lemma_multiplied_by_two, lemma_multiplied_by_four, lemma_multiplied_on_curve,
};

verus! {

/// The field that all coordinates live in: the integers modulo `field`,
/// which is meant to be a prime.
pub struct ECurve {
    pub field: u32,
}

/// An affine point; both coordinates are meant to lie in `[0, field)`.
#[derive(Debug, Clone, Copy, PartialEq, Eq, Structural)]
pub struct Point {
    pub x: u32,
    pub y: u32,
}

impl View for Point {
    type V = AffinePoint;

    open spec fn view(&self) -> AffinePoint {
        AffinePoint { x: self.x as int, y: self.y as int }
    }
}

impl ECurve {
    /// The modulus as an integer.
    pub open spec fn modulus(&self) -> int {
        self.field as int
    }

    /// The modulus is a prime, as division in the field needs it.
    pub open spec fn is_prime_field(&self) -> bool {
        is_prime(self.modulus())
    }

    /// Both coordinates of `p` are elements of the field.
    pub open spec fn holds(&self, p: Point) -> bool {
        in_field(self.modulus(), p@)
    }

    /// The constant `b` of the curve `y^2 = x^3 + b` that `p` lies on.
    pub open spec fn constant_through(&self, p: Point) -> int {
        curve_constant(self.modulus(), p@)
    }

    /// The mirror image of `p` across the x-axis: `-p`. A point with
    /// `y == 0` is its own mirror image, and yet comes out with `y == field`:
    /// the one result of this library that can lie outside the field.
    pub fn neg(&self, p: &Point) -> (r: Point)
        requires
            p.y <= self.field,
        ensures
            r@ == negated(self.modulus(), p@),
            r.y <= self.field,
            self.holds(*p) && p.y != 0 ==> self.holds(r),
    {
        Point { x: p.x, y: self.field - p.y }
    }

    /// The greatest common divisor of `a` and `b`; `gcd(0, 0)` is 0.
    pub fn gcd(a: u128, b: u128) -> (g: u128)
        ensures
            g == gcd(a as nat, b as nat),
            a != 0 || b != 0 ==> g > 0 && a % g == 0 && b % g == 0,
            forall|d: nat|
                d > 0 && a as nat % d == 0 && b as nat % d == 0 ==> #[trigger] (g as nat % d) == 0,
        decreases b,
    {
        proof {
            if a != 0 || b != 0 {
                lemma_gcd_divides(a as nat, b as nat);
            }
            assert forall|d: nat| d > 0 && a as nat % d == 0 && b as nat % d == 0 implies #[trigger] (
            gcd(a as nat, b as nat) % d) == 0 by {
                lemma_common_divisor_divides_gcd(a as nat, b as nat, d);
            }
        }
        if b == 0 {
            return a;
        }
        Self::gcd(b, a % b)
    }

    /// Brings a signed intermediate value into the field: the result is
    /// the one element of the field in the residue class of `a`. For a
    /// negative `a` that is `field - ((-a) mod field)`, and 0 where that
    /// would be `field`.
    pub fn modular(&self, a: i128) -> (r: u32)
        requires
            self.field >= 1,
            a != i128::MIN,
        ensures
            r == reduce_signed(self.modulus(), a as int),
            r < self.field,
            r as int == a as int % self.modulus(),
            a < 0 && (-a) % self.modulus() != 0 ==> r == self.modulus() - (-a) % self.modulus(),
            a < 0 && (-a) % self.modulus() == 0 ==> r == 0,
    {
        proof {
            lemma_reduce_signed(self.modulus(), a as int);
        }
        let f: i128 = self.field as i128;
        if a >= 0 {
            (a % f) as u32
        } else {
            let m: i128 = -a % f;
            if m == 0 {
                0
            } else {
                (f - m) as u32
            }
        }
    }

    /// `b^e mod field` by square-and-multiply, from the lowest bit of `e` up.
    /// In the field of one element every power is 0.
    pub fn pow(&self, b: u64, e: u32) -> (r: u32)
        requires
            self.field >= 1,
        ensures
            r == mod_pow(self.modulus(), b as int, e as nat),
            r < self.field,
            self.is_prime_field() && b as int % self.modulus() != 0 && e == self.field - 1 ==> r == 1,
            self.is_prime_field() && b as int % self.modulus() != 0 && e == self.field - 2 ==> (b
                * r) % self.modulus() == 1,
    {
        proof {
            if self.is_prime_field() && b as int % self.modulus() != 0 {
                lemma_mod_pow_inverse(self.modulus(), b as int);
            }
        }
        if self.field == 1 {
            return 0;
        }
        let f: u128 = self.field as u128;
        let ghost b0: int = b as int;
        let ghost e0: nat = e as nat;
        let mut r: u128 = 1;
        let mut b: u128 = b as u128;
        let mut e: u32 = e;
        proof {
            assert(1 * pow(b0, e0) == pow(b0, e0));
        }
        while e > 0
            invariant
                f == self.field,
                f >= 2,
                r < f,
                b <= u64::MAX,
                (r * pow(b as int, e as nat)) % (f as int) == pow(b0, e0) % (f as int),
            decreases e,
        {
            proof {
                lemma_square_and_multiply_step(f as int, r as int, b as int, e as nat);
                assert(e & 1 == e % 2) by (bit_vector);
                assert(e >> 1 == e / 2) by (bit_vector);
                assert(r * b <= (f - 1) * u64::MAX) by (nonlinear_arith)
                    requires
                        0 <= r <= f - 1,
                        0 <= b <= u64::MAX,
                ;
                assert(b * b <= u64::MAX * u64::MAX) by (nonlinear_arith)
                    requires
                        0 <= b <= u64::MAX,
                ;
            }
            if e & 1 == 1 {
                r = (r * b) % f;
            }
            b = (b * b) % f;
            e >>= 1;
        }
        proof {
            lemma_pow0(b as int);
            assert(r * 1 == r);
            lemma_small_mod(r as nat, f as nat);
        }
        r as u32
    }

    /// The fraction `a / b` as an element of the field: `a / b` in lowest
    /// terms, the numerator times the power `field - 2` of the denominator.
    /// In a prime field that does not divide `b`, this is the quotient.
    pub fn frac_to_element(&self, a: u128, b: u64) -> (r: u32)
        requires
            self.field >= 2,
            a != 0 || b != 0,
        ensures
            r == field_div(self.modulus(), a as nat, b as nat),
            r < self.field,
            self.is_prime_field() && b as int % self.modulus() != 0 ==> (r * b) % self.modulus()
                == a as int % self.modulus(),
    {
        let g: u128 = Self::gcd(a, b as u128);
        proof {
            lemma_gcd_bounds(a as nat, b as nat);
            if self.is_prime_field() && b as int % self.modulus() != 0 {
                lemma_field_div_is_quotient(self.modulus(), a as nat, b as nat);
            }
        }
        let a: u128 = a / g;
        let b: u64 = (b as u128 / g) as u64;

        let b_mul_inv: u32 = self.pow(b, self.field - 2);
        // the numerator may be as wide as its type: only its residue is multiplied
        let a_mod: u128 = a % (self.field as u128);
        proof {
            let f: int = self.modulus();
            lemma_mul_mod_noop_general(a as int, b_mul_inv as int, f);
            assert(a_mod * b_mul_inv <= (f - 1) * (f - 1)) by (nonlinear_arith)
                requires
                    0 <= a_mod <= f - 1,
                    0 <= b_mul_inv <= f - 1,
            ;
            assert((f - 1) * (f - 1) < 0x1_0000_0000_0000_0000) by (nonlinear_arith)
                requires
                    2 <= f <= 0xffff_ffff,
            ;
        }
        self.modular((a_mod * (b_mul_inv as u128)) as i128)
    }

    /// `2p`, by the tangent in `p`. Where `p` lies in a prime field and
    /// `p.y` is not 0, the result lies on the curve of `p`.
    pub fn double(&self, p: &Point) -> (r: Point)
        requires
            self.field >= 2,
            can_double(p@),
        ensures
            r@ == doubled(self.modulus(), p@),
            r.x < self.field,
            r.y < self.field,
            self.holds(r),
            self.is_prime_field() && self.holds(*p) && p.y != 0 ==> can_double(r@) && on_curve(
                self.modulus(),
                self.constant_through(*p),
                r@,
            ),
    {
        proof {
            let f: int = self.modulus();
            if self.is_prime_field() && self.holds(*p) && p.y != 0 {
                lemma_on_own_curve(f, p@);
                lemma_doubled_on_curve(f, curve_constant(f, p@), p@);
                lemma_doubled_can_double(f, p@);
            }
        }
        let x: i128 = p.x as i128;
        let y: i128 = p.y as i128;
        proof {
            assert(0 <= 3 * x * x <= 3 * (0xffff_ffff * 0xffff_ffff) && (x != 0 ==> 3 * x * x != 0))
                by (nonlinear_arith)
                requires
                    0 <= x <= 0xffff_ffff,
            ;
        }
        // m = m_a / m_b
        let m_a: u128 = 3 * (p.x as u128) * (p.x as u128);
        let m_b: u64 = 2 * (p.y as u64);
        let m: i128 = self.frac_to_element(m_a, m_b) as i128;
        proof {
            assert(0 <= m * m <= 0xffff_ffff * 0xffff_ffff) by (nonlinear_arith)
                requires
                    0 <= m <= 0xffff_ffff,
            ;
            assert(-0x1_0000_0000_0000_0000_0000_0000 <= m * (3 * x - m * m)
                <= 0x1_0000_0000_0000_0000_0000_0000) by (nonlinear_arith)
                requires
                    0 <= m <= 0xffff_ffff,
                    0 <= x <= 0xffff_ffff,
            ;
        }
        Point { x: self.modular(m * m - 2 * x), y: self.modular(m * (3 * x - m * m) - y) }
    }

    /// `p + q` for two points with different `x`, by the chord through
    /// them. Where both lie in a prime field, the order of the two makes no
    /// difference, and where they lie on one curve, so does the result.
    pub fn add(&self, p: &Point, q: &Point) -> (r: Point)
        requires
            self.field >= 2,
            can_add(self.modulus(), p@, q@),
        ensures
            r@ == sum(self.modulus(), p@, q@),
            r.x < self.field,
            r.y < self.field,
            self.holds(r),
            self.is_prime_field() && self.holds(*p) && self.holds(*q) && on_curve(
                self.modulus(),
                self.constant_through(*p),
                q@,
            ) ==> on_curve(self.modulus(), self.constant_through(*p), r@),
            self.is_prime_field() && self.holds(*p) && self.holds(*q) ==> r@ == sum(
                self.modulus(),
                q@,
                p@,
            ),
    {
        proof {
            let f: int = self.modulus();
            let b: int = curve_constant(f, p@);
            if self.is_prime_field() && self.holds(*p) && self.holds(*q) {
                lemma_sum_commutes(f, p@, q@);
                if on_curve(f, b, q@) {
                    lemma_on_own_curve(f, p@);
                    lemma_sum_on_curve(f, b, p@, q@);
                }
            }
        }
        let lam_a: u32 = self.modular(q.y as i128 - p.y as i128);
        let lam_b: u32 = self.modular(q.x as i128 - p.x as i128);

        let lam: i128 = self.frac_to_element(lam_a as u128, lam_b as u64) as i128;
        let p_x: i128 = p.x as i128;
        proof {
            assert(0 <= lam * lam <= 0xffff_ffff * 0xffff_ffff) by (nonlinear_arith)
                requires
                    0 <= lam <= 0xffff_ffff,
            ;
            assert(0 <= lam * p_x <= 0xffff_ffff * 0xffff_ffff) by (nonlinear_arith)
                requires
                    0 <= lam <= 0xffff_ffff,
                    0 <= p_x <= 0xffff_ffff,
            ;
        }

        let r_x: u32 = self.modular(lam * lam - (p_x + q.x as i128));
        let x3: i128 = r_x as i128;
        proof {
            assert(0 <= lam * x3 <= 0xffff_ffff * 0xffff_ffff) by (nonlinear_arith)
                requires
                    0 <= lam <= 0xffff_ffff,
                    0 <= x3 <= 0xffff_ffff,
            ;
        }

        Point { x: r_x, y: self.modular(lam * p_x - (lam * x3 + p.y as i128)) }
    }

    /// `n p` for `n` one of 2, 4, 8, 16, ...: `p` doubled once for `n == 2`,
    /// and once more for each halving that brings `n` down to 2. Every half
    /// on the way has to be even.
    pub fn mul(&self, p: &Point, n: u32) -> (r: Point)
        requires
            self.field >= 2,
            n % 2 == 0,
            halves_to_two(n as nat),
            can_multiply(self.modulus(), p@, n as nat),
        ensures
            r@ == multiplied(self.modulus(), p@, n as nat),
            r.x < self.field,
            r.y < self.field,
            self.holds(r),
            n == 2 ==> r@ == doubled(self.modulus(), p@),
            n == 4 ==> r@ == doubled(self.modulus(), doubled(self.modulus(), p@)),
            self.is_prime_field() && self.holds(*p) && doubles_off_axis(
                self.modulus(),
                p@,
                n as nat,
            ) ==> on_curve(self.modulus(), self.constant_through(*p), r@),
        decreases n,
    {
        proof {
            let f: int = self.modulus();
            lemma_multiplied_by_two(f, p@);
            lemma_multiplied_by_four(f, p@);
            if self.is_prime_field() && self.holds(*p) && doubles_off_axis(f, p@, n as nat) {
                lemma_on_own_curve(f, p@);
                lemma_multiplied_on_curve(f, curve_constant(f, p@), p@, n as nat);
            }
            // the half of `n` is even too, unless it is the last
            reveal_with_fuel(halves_to_two, 2);
        }
        if n == 2 {
            return self.double(p);
        }
        let r: Point = self.mul(p, n / 2);
        self.double(&r)
    }

    /// `2p`, or `None` where `double` has no result: in a field of fewer
    /// than two elements, and for the point `(0, 0)`.
    pub fn checked_double(&self, p: &Point) -> (r: Option<Point>)
        ensures
            r is Some <==> self.field >= 2 && can_double(p@),
            r matches Some(d) ==> d@ == doubled(self.modulus(), p@) && d.x < self.field && d.y
                < self.field,
    {
        if self.field >= 2 && (p.x != 0 || p.y != 0) {
            Some(self.double(p))
        } else {
            None
        }
    }

    /// `p + q`, or `None` where `add` has no result: in a field of fewer
    /// than two elements, for two points with the same `x`, and where the
    /// chord slope would be `0 / 0`.
    pub fn checked_add(&self, p: &Point, q: &Point) -> (r: Option<Point>)
        ensures
            r is Some <==> self.field >= 2 && can_add(self.modulus(), p@, q@),
            r matches Some(s) ==> s@ == sum(self.modulus(), p@, q@) && s.x < self.field && s.y
                < self.field,
    {
        if self.field < 2 || p.x == q.x {
            return None;
        }
        let lam_a: u32 = self.modular(q.y as i128 - p.y as i128);
        let lam_b: u32 = self.modular(q.x as i128 - p.x as i128);
        if lam_a == 0 && lam_b == 0 {
            return None;
        }
        Some(self.add(p, q))
    }

    /// The multiple of `mul`, or `None` where `mul` has no result: in a
    /// field of fewer than two elements, for an `n` that is none of 2, 4, 8,
    /// 16, ..., and where a point on the way cannot be doubled.
    pub fn checked_mul(&self, p: &Point, n: u32) -> (r: Option<Point>)
        ensures
            r is Some <==> self.field >= 2 && halves_to_two(n as nat) && can_multiply(
                self.modulus(),
                p@,
                n as nat,
            ),
            r matches Some(m) ==> m@ == multiplied(self.modulus(), p@, n as nat) && m.x
                < self.field && m.y < self.field,
        decreases n,
    {
        if self.field < 2 || n < 2 || n % 2 != 0 {
            return None;
        }
        if n == 2 {
            return self.checked_double(p);
        }
        match self.checked_mul(p, n / 2) {
            Some(r) => self.checked_double(&r),
            None => None,
        }
    }
}

} // verus!
