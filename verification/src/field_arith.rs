//! The arithmetic of the field, as mathematics: what each primitive of the
//! curve computes, stated over unbounded integers.

use vstd::prelude::*;
use vstd::arithmetic::power::{
    pow, lemma_pow1, lemma_pow_adds, lemma_pow_multiplies, lemma_pow_mod_noop,
};
use vstd::arithmetic::div_mod::{
    lemma_mul_mod_noop_general, lemma_fundamental_div_mod, lemma_mod_bound,
    lemma_mod_multiples_vanish, lemma_small_mod, lemma_mod_twice,
};
use vstd::arithmetic::mul::lemma_mul_is_associative;
use vstd::calc;
use crate::number_theory::{
    gcd, is_prime, lemma_fermat_little, lemma_gcd_divides, lemma_multiple_times, lemma_cancel,
};

verus! {

/// `b` to the power `e`, as a residue modulo `f`.
pub open spec fn mod_pow(f: int, b: int, e: nat) -> int {
    pow(b, e) % f
}

/// A signed integer brought into the field: the one element of `[0, f)`
/// that differs from `a` by a multiple of `f`.
pub open spec fn reduce_signed(f: int, a: int) -> int {
    a % f
}

/// The fraction `a / b` as a field element: the fraction is first brought to
/// lowest terms, and the numerator is then multiplied by the power `f - 2` of
/// the denominator, which is its inverse when `f` is prime.
pub open spec fn field_div(f: int, a: nat, b: nat) -> int {
    let g = gcd(a, b);
    ((a / g) * mod_pow(f, (b / g) as int, (f - 2) as nat)) % f
}

/// `reduce_signed` is an element of the field in the residue class of `a`.
/// Below zero it is `f - ((-a) mod f)`, but for the multiples of `f`, which
/// it brings to 0.
pub proof fn lemma_reduce_signed(f: int, a: int)
    requires
        f > 0,
    ensures
        0 <= reduce_signed(f, a) < f,
        reduce_signed(f, a) % f == a % f,
        a >= 0 ==> reduce_signed(f, a) == a % f,
        a < 0 && (-a) % f != 0 ==> reduce_signed(f, a) == f - ((-a) % f),
        a < 0 && (-a) % f == 0 ==> reduce_signed(f, a) == 0,
{
    lemma_mod_bound(a, f);
    lemma_mod_bound(-a, f);
    lemma_mod_twice(a, f);
    if a < 0 {
        let q: int = (-a) / f;
        let r: int = (-a) % f;
        lemma_fundamental_div_mod(-a, f);
        assert(-a == f * q + r);
        if r == 0 {
            // a == f * (-q)
            assert(f * (-q) == -(f * q)) by (nonlinear_arith);
            lemma_mod_multiples_vanish(-q, 0, f);
            lemma_small_mod(0, f as nat);
        } else {
            // a == f * (-q - 1) + (f - r)
            assert(f * (-q - 1) == -(f * q) - f) by (nonlinear_arith);
            lemma_mod_multiples_vanish(-q - 1, f - r, f);
            lemma_small_mod((f - r) as nat, f as nat);
        }
    }
}

/// Opposite numbers are reduced to opposite elements: to 0 both, or to two
/// elements whose sum is `f`.
pub proof fn lemma_reduce_signed_opposite(f: int, a: int)
    requires
        f > 0,
    ensures
        a % f == 0 ==> reduce_signed(f, -a) == 0,
        a % f != 0 ==> reduce_signed(f, -a) == f - a % f,
{
    lemma_reduce_signed(f, a);
    lemma_reduce_signed(f, -a);
    lemma_small_mod(0, f as nat);
    if a > 0 {
        assert(-(-a) == a);
    }
}

/// Numbers that differ by a multiple of `f` are reduced to the same element.
pub proof fn lemma_reduce_signed_shift(f: int, a: int, k: int)
    requires
        f > 0,
    ensures
        reduce_signed(f, a + k * f) == reduce_signed(f, a),
{
    assert(a + k * f == f * k + a) by (nonlinear_arith);
    lemma_mod_multiples_vanish(k, a, f);
}

/// One round of square-and-multiply keeps `r * b^e` unchanged modulo `f`:
/// the exponent is halved, the base squared, and an odd exponent hands one
/// factor `b` over to `r`.
pub proof fn lemma_square_and_multiply_step(f: int, r: int, b: int, e: nat)
    requires
        f > 0,
        e > 0,
    ensures
        e % 2 == 1 ==> (((r * b) % f) * pow((b * b) % f, e / 2)) % f == (r * pow(b, e)) % f,
        e % 2 == 0 ==> (r * pow((b * b) % f, e / 2)) % f == (r * pow(b, e)) % f,
{
    let h: nat = e / 2;
    let sq: int = pow(b * b, h);
    // b^(2h) is (b*b)^h
    assert(pow(b, 2 * h) == sq) by {
        lemma_pow_multiplies(b, 2, h);
        lemma_pow_adds(b, 1, 1);
        lemma_pow1(b);
    }
    // squaring first and reducing changes nothing modulo f
    assert(pow((b * b) % f, h) % f == sq % f) by {
        lemma_pow_mod_noop(b * b, h, f);
    }
    if e % 2 == 1 {
        assert(e == 1 + 2 * h);
        assert(pow(b, e) == b * sq) by {
            lemma_pow_adds(b, 1, 2 * h);
            lemma_pow1(b);
        }
        assert((((r * b) % f) * pow((b * b) % f, h)) % f == ((r * b) * sq) % f) by {
            lemma_mul_mod_noop_general(r * b, pow((b * b) % f, h), f);
            lemma_mul_mod_noop_general(r * b, sq, f);
        }
        assert((r * b) * sq == r * (b * sq)) by {
            lemma_mul_is_associative(r, b, sq);
        }
    } else {
        assert(e == 2 * h);
        assert((r * pow((b * b) % f, h)) % f == (r * sq) % f) by {
            lemma_mul_mod_noop_general(r, pow((b * b) % f, h), f);
            lemma_mul_mod_noop_general(r, sq, f);
        }
    }
}

/// In a prime field `b^(f-1)` is 1 for every `b` that `f` does not divide,
/// so that `b^(f-2)` is the inverse of `b`.
pub proof fn lemma_mod_pow_inverse(f: int, b: int)
    requires
        is_prime(f),
        b % f != 0,
    ensures
        mod_pow(f, b, (f - 1) as nat) == 1,
        (b * mod_pow(f, b, (f - 2) as nat)) % f == 1,
{
    lemma_fermat_little(f, b);
    assert(pow(b, (f - 1) as nat) == b * pow(b, (f - 2) as nat)) by {
        reveal(pow);
    }
    lemma_mul_mod_noop_general(b, pow(b, (f - 2) as nat), f);
}

/// In a prime field `field_div(f, a, b)` is the quotient `a / b`: the
/// element of `[0, f)` whose product with `b` is congruent to `a`, for every
/// `b` that `f` does not divide.
pub proof fn lemma_field_div_is_quotient(f: int, a: nat, b: nat)
    requires
        is_prime(f),
        b as int % f != 0,
    ensures
        0 <= field_div(f, a, b) < f,
        (field_div(f, a, b) * b) % f == a as int % f,
{
    let g: int = gcd(a, b) as int;
    let an: int = a as int / g;
    let bn: int = b as int / g;
    let r: int = field_div(f, a, b);
    if b == 0 {
        lemma_small_mod(0, f as nat);
    }
    lemma_gcd_divides(a, b);
    lemma_fundamental_div_mod(a as int, g);
    lemma_fundamental_div_mod(b as int, g);
    assert(a == g * an);
    assert(b == g * bn);
    // f divides neither the denominator nor what is left of it in lowest terms
    assert(bn % f != 0) by {
        if bn % f == 0 {
            lemma_multiple_times(bn, g, f);
        }
    }
    let inv: int = mod_pow(f, bn, (f - 2) as nat);
    lemma_mod_pow_inverse(f, bn);
    lemma_mod_bound(an * inv, f);
    let ai: int = a as int;
    let bi: int = b as int;
    calc! {
        (==)
        (r * bi) % f; {
            lemma_mul_mod_noop_general(an * inv, bi, f);
        }
        ((an * inv) * bi) % f; {
            assert((an * inv) * bi == (g * an) * (bn * inv)) by (nonlinear_arith)
                requires
                    bi == g * bn,
            ;
        }
        (ai * (bn * inv)) % f; {
            lemma_mul_mod_noop_general(ai, bn * inv, f);
        }
        (ai * 1) % f; {
            assert(ai * 1 == ai);
        }
        ai % f;
    }
}

/// The quotient in a prime field is unique: whatever element of `[0, f)`
/// gives `a` when multiplied by `b` is `field_div(f, a, b)`.
pub proof fn lemma_field_div_unique(f: int, a: nat, b: nat, r: int)
    requires
        is_prime(f),
        b as int % f != 0,
        0 <= r < f,
        (r * b) % f == a as int % f,
    ensures
        r == field_div(f, a, b),
{
    let q: int = field_div(f, a, b);
    lemma_field_div_is_quotient(f, a, b);
    assert(b * r == r * b) by (nonlinear_arith);
    assert(b * q == q * b) by (nonlinear_arith);
    lemma_cancel(f, b as int, r, q);
    lemma_small_mod(r as nat, f as nat);
    lemma_small_mod(q as nat, f as nat);
}

} // verus!
