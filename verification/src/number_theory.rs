//! Divisibility, primes and Fermat's little theorem: the number theory that
//! the inverse in a prime field rests on.

use vstd::prelude::*;
use vstd::arithmetic::div_mod::{
    lemma_fundamental_div_mod, lemma_mod_bound, lemma_mod_multiples_vanish, lemma_mod_self_0,
    lemma_small_mod, lemma_mul_mod_noop_general, lemma_add_mod_noop,
    lemma_sub_mod_noop, lemma_mod_is_zero, lemma_mod_decreases, lemma_mod_equivalence,
};
use vstd::arithmetic::power::{pow, lemma_pow0};
use vstd::calc;

verus! {

/// `p` is prime: at least 2, and no number strictly between 1 and `p`
/// divides it.
pub open spec fn is_prime(p: int) -> bool {
    p >= 2 && forall|d: int| 1 < d < p ==> #[trigger] (p % d) != 0
}

/// The greatest common divisor, by Euclid's recursion; `gcd(a, 0) == a`.
pub open spec fn gcd(a: nat, b: nat) -> nat
    decreases b,
{
    if b == 0 {
        a
    } else {
        gcd(b, a % b)
    }
}

/// The gcd reaches neither above its larger argument nor, unless both
/// arguments are 0, down to 0.
pub proof fn lemma_gcd_bounds(a: nat, b: nat)
    ensures
        a != 0 || b != 0 ==> gcd(a, b) > 0,
        b > 0 ==> gcd(a, b) <= b,
        a > 0 ==> gcd(a, b) <= a,
    decreases b,
{
    if b != 0 {
        lemma_mod_bound(a as int, b as int);
        lemma_gcd_bounds(b, a % b);
        if a > 0 && a % b == 0 {
            lemma_mod_is_zero(a, b);
        }
        if a % b > 0 {
            lemma_mod_decreases(a, b);
        }
    }
}

/// A multiple of `m` times anything is a multiple of `m`.
pub proof fn lemma_multiple_times(a: int, b: int, m: int)
    requires
        m > 0,
        a % m == 0,
    ensures
        (a * b) % m == 0,
        (b * a) % m == 0,
{
    lemma_mul_mod_noop_general(a, b, m);
    lemma_mul_mod_noop_general(b, a, m);
    assert(0 * b == 0);
    assert(b * 0 == 0);
    assert((b % m) * 0 == 0);
    assert(0 * (b % m) == 0);
    lemma_small_mod(0, m as nat);
}

/// The sum and the difference of two multiples of `m` are multiples of `m`.
pub proof fn lemma_multiples_add(a: int, b: int, m: int)
    requires
        m > 0,
        a % m == 0,
        b % m == 0,
    ensures
        (a + b) % m == 0,
        (a - b) % m == 0,
{
    lemma_add_mod_noop(a, b, m);
    lemma_sub_mod_noop(a, b, m);
    lemma_small_mod(0, m as nat);
}

/// Two integers have the same remainder exactly when their difference is a
/// multiple of `m`.
pub proof fn lemma_congruent_iff(a: int, b: int, m: int)
    requires
        m > 0,
    ensures
        a % m == b % m <==> (a - b) % m == 0,
{
    lemma_mod_equivalence(a, b, m);
}

/// Congruent factors give congruent products.
pub proof fn lemma_congruent_mul(a: int, b: int, c: int, d: int, m: int)
    requires
        m > 0,
        a % m == b % m,
        c % m == d % m,
    ensures
        (a * c) % m == (b * d) % m,
{
    lemma_mul_mod_noop_general(a, c, m);
    lemma_mul_mod_noop_general(b, d, m);
}

/// Congruent summands give congruent sums.
pub proof fn lemma_congruent_add(a: int, b: int, c: int, d: int, m: int)
    requires
        m > 0,
        a % m == b % m,
        c % m == d % m,
    ensures
        (a + c) % m == (b + d) % m,
        (a - c) % m == (b - d) % m,
{
    lemma_add_mod_noop(a, c, m);
    lemma_add_mod_noop(b, d, m);
    lemma_sub_mod_noop(a, c, m);
    lemma_sub_mod_noop(b, d, m);
}

/// Congruent numbers have congruent squares and cubes.
pub proof fn lemma_congruent_powers(a: int, b: int, m: int)
    requires
        m > 0,
        a % m == b % m,
    ensures
        (a * a) % m == (b * b) % m,
        (a * a * a) % m == (b * b * b) % m,
{
    lemma_congruent_mul(a, b, a, b, m);
    lemma_congruent_mul(a * a, b * b, a, b, m);
}

/// The gcd divides both of its arguments.
pub proof fn lemma_gcd_divides(a: nat, b: nat)
    requires
        a != 0 || b != 0,
    ensures
        gcd(a, b) > 0,
        a % gcd(a, b) == 0,
        b % gcd(a, b) == 0,
    decreases b,
{
    lemma_gcd_bounds(a, b);
    if b == 0 {
        lemma_mod_self_0(a as int);
        lemma_small_mod(0, a);
    } else {
        let g: int = gcd(b, a % b) as int;
        lemma_gcd_divides(b, a % b);
        lemma_fundamental_div_mod(a as int, b as int);
        // a == b * (a / b) + a % b, and g divides both terms
        lemma_multiple_times(b as int, (a / b) as int, g);
        lemma_multiples_add((b as int) * ((a / b) as int), (a % b) as int, g);
    }
}

/// Bezout's identity: the gcd is an integer combination of its arguments.
pub proof fn lemma_bezout(a: nat, b: nat) -> (c: (int, int))
    ensures
        a * c.0 + b * c.1 == gcd(a, b),
    decreases b,
{
    if b == 0 {
        assert(a * 1 + b * 0 == a);
        (1, 0)
    } else {
        let (x, y) = lemma_bezout(b, a % b);
        let q: int = (a / b) as int;
        let r: int = (a % b) as int;
        lemma_fundamental_div_mod(a as int, b as int);
        assert(a == b * q + r);
        assert(a * y + b * (x - q * y) == b * x + r * y) by (nonlinear_arith)
            requires
                a == b * q + r,
        ;
        (y, x - q * y)
    }
}

/// Whatever divides both arguments divides their gcd.
pub proof fn lemma_common_divisor_divides_gcd(a: nat, b: nat, d: nat)
    requires
        d > 0,
        a % d == 0,
        b % d == 0,
    ensures
        gcd(a, b) % d == 0,
{
    let (x, y) = lemma_bezout(a, b);
    lemma_multiple_times(a as int, x, d as int);
    lemma_multiple_times(b as int, y, d as int);
    lemma_multiples_add(a * x, b * y, d as int);
}

/// Euclid's lemma: a prime that divides a product divides one of the factors.
pub proof fn lemma_euclid(p: int, a: int, b: int)
    requires
        is_prime(p),
        (a * b) % p == 0,
    ensures
        a % p == 0 || b % p == 0,
{
    if a % p != 0 {
        let r: int = a % p;
        lemma_mod_bound(a, p);
        let g: int = gcd(r as nat, p as nat) as int;
        lemma_gcd_divides(r as nat, p as nat);
        lemma_gcd_bounds(r as nat, p as nat);
        // g divides the prime p and is at most r < p, so g is 1
        assert(g == 1) by {
            if g > 1 {
                assert(p % g != 0);
            }
        }
        let (x, y) = lemma_bezout(r as nat, p as nat);
        assert(r * x + p * y == 1);
        // b == (r b) x + p (y b), and p divides r b
        assert((r * b) % p == 0) by {
            lemma_mul_mod_noop_general(a, b, p);
        }
        assert(b == (r * b) * x + p * (y * b)) by (nonlinear_arith)
            requires
                r * x + p * y == 1,
        ;
        lemma_multiple_times(r * b, x, p);
        lemma_mod_multiples_vanish(y * b, (r * b) * x, p);
    }
}

/// In a prime field a factor that is not zero can be cancelled.
pub proof fn lemma_cancel(p: int, c: int, a: int, b: int)
    requires
        is_prime(p),
        c % p != 0,
        (c * a) % p == (c * b) % p,
    ensures
        a % p == b % p,
{
    lemma_congruent_iff(c * a, c * b, p);
    assert(c * a - c * b == c * (a - b)) by (nonlinear_arith);
    lemma_euclid(p, c, a - b);
    lemma_congruent_iff(a, b, p);
}

/// The product `g(1) * g(2) * ... * g(n)`.
pub open spec fn product(g: spec_fn(int) -> int, n: nat) -> int
    decreases n,
{
    if n == 0 {
        1
    } else {
        g(n as int) * product(g, (n - 1) as nat)
    }
}

/// `n! = 1 * 2 * ... * n`.
pub open spec fn factorial(n: nat) -> int
    decreases n,
{
    if n == 0 {
        1
    } else {
        n * factorial((n - 1) as nat)
    }
}

/// `g` maps `1..=n` into `1..=n` and takes no value twice there.
pub open spec fn injective_into(g: spec_fn(int) -> int, n: nat) -> bool {
    &&& forall|i: int| 1 <= i <= n ==> 1 <= #[trigger] g(i) <= n
    &&& forall|i: int, j: int| 1 <= i < j <= n ==> #[trigger] g(i) != #[trigger] g(j)
}

/// `g` takes the value `v` somewhere in `1..=n`.
pub open spec fn takes_value(g: spec_fn(int) -> int, n: nat, v: int) -> bool {
    exists|i: int| 1 <= i <= n && #[trigger] g(i) == v
}

/// Functions that agree on `1..=n` have the same product there.
pub proof fn lemma_product_ext(g: spec_fn(int) -> int, h: spec_fn(int) -> int, n: nat)
    requires
        forall|i: int| 1 <= i <= n ==> #[trigger] g(i) == h(i),
    ensures
        product(g, n) == product(h, n),
    decreases n,
{
    if n > 0 {
        lemma_product_ext(g, h, (n - 1) as nat);
        assert(g(n as int) == h(n as int));
    }
}

/// Where `h` differs from `g` in `j` alone, the two products differ by the
/// factors that `g` and `h` have in `j`.
pub proof fn lemma_product_update(g: spec_fn(int) -> int, h: spec_fn(int) -> int, n: nat, j: int)
    requires
        1 <= j <= n,
        forall|i: int| 1 <= i <= n && i != j ==> #[trigger] g(i) == h(i),
    ensures
        product(h, n) * g(j) == product(g, n) * h(j),
    decreases n,
{
    let m: nat = (n - 1) as nat;
    let pg: int = product(g, m);
    let ph: int = product(h, m);
    let gn: int = g(n as int);
    let hn: int = h(n as int);
    if j == n {
        lemma_product_ext(g, h, m);
        assert((hn * ph) * gn == (gn * pg) * hn) by (nonlinear_arith)
            requires
                pg == ph,
        ;
    } else {
        lemma_product_update(g, h, m, j);
        assert(gn == hn);
        let gj: int = g(j);
        let hj: int = h(j);
        assert((hn * ph) * gj == (gn * pg) * hj) by (nonlinear_arith)
            requires
                ph * gj == pg * hj,
                gn == hn,
        ;
    }
}

/// A function that maps `1..=n` into itself without taking a value twice
/// takes every value, and the product of its values is `n!`.
pub proof fn lemma_permutation_product(g: spec_fn(int) -> int, n: nat)
    requires
        injective_into(g, n),
    ensures
        product(g, n) == factorial(n),
        forall|v: int| 1 <= v <= n ==> #[trigger] takes_value(g, n, v),
    decreases n,
{
    if n > 0 {
        let m: nat = (n - 1) as nat;
        let gn: int = g(n as int);
        if exists|j: int| 1 <= j <= n && #[trigger] g(j) == n {
            let j: int = choose|j: int| 1 <= j <= n && #[trigger] g(j) == n;
            // h is g with the value in n moved to j, so that h stays below n
            let h = |i: int| if i == j { gn } else { g(i) };
            assert(injective_into(h, m)) by {
                assert forall|i: int| 1 <= i <= m implies 1 <= #[trigger] h(i) <= m by {
                    if i == j {
                        assert(g(j) != g(n as int));
                    } else if i < j {
                        assert(g(i) != g(j));
                    } else {
                        assert(g(j) != g(i));
                    }
                }
                assert forall|i: int, k: int| 1 <= i < k <= m implies #[trigger] h(i) != #[trigger] h(k) by {
                    if i == j {
                        assert(g(k) != g(n as int));
                    } else if k == j {
                        assert(g(i) != g(n as int));
                    } else {
                        assert(g(i) != g(k));
                    }
                }
            }
            lemma_permutation_product(h, m);
            if j == n {
                lemma_product_ext(g, h, m);
            } else {
                lemma_product_update(g, h, m, j);
                assert(h(j) == gn);
                let pg: int = product(g, m);
                let fm: int = factorial(m);
                assert(gn * pg == n * fm) by (nonlinear_arith)
                    requires
                        fm * n == pg * gn,
                ;
            }
            assert forall|v: int| 1 <= v <= n implies #[trigger] takes_value(g, n, v) by {
                if v == n {
                    assert(g(j) == v);
                } else {
                    assert(takes_value(h, m, v));
                    let i: int = choose|i: int| 1 <= i <= m && #[trigger] h(i) == v;
                    if i == j {
                        assert(g(n as int) == v);
                    } else {
                        assert(g(i) == v);
                    }
                }
            }
        } else {
            // no value is n, so 1..=m is mapped into itself and, by induction,
            // onto itself: the value in n is then taken twice
            assert(injective_into(g, m)) by {
                assert forall|i: int| 1 <= i <= m implies 1 <= #[trigger] g(i) <= m by {
                    assert(g(i) != n);
                }
            }
            lemma_permutation_product(g, m);
            assert(gn != n);
            assert(takes_value(g, m, gn));
            let i: int = choose|i: int| 1 <= i <= m && #[trigger] g(i) == gn;
            assert(g(i) != g(n as int));
            assert(false);
        }
    }
}

/// No prime divides the factorial of a smaller number.
pub proof fn lemma_factorial_not_multiple(p: int, n: nat)
    requires
        is_prime(p),
        n < p,
    ensures
        factorial(n) % p != 0,
    decreases n,
{
    if n == 0 {
        lemma_small_mod(1, p as nat);
    } else {
        lemma_factorial_not_multiple(p, (n - 1) as nat);
        lemma_small_mod(n, p as nat);
        if factorial(n) % p == 0 {
            lemma_euclid(p, n as int, factorial((n - 1) as nat));
        }
    }
}

/// The product of the residues of `a, 2a, ..., na` is congruent to `a^n n!`.
pub proof fn lemma_product_of_multiples(g: spec_fn(int) -> int, p: int, a: int, n: nat)
    requires
        p > 0,
        forall|i: int| 1 <= i <= n ==> #[trigger] g(i) == (a * i) % p,
    ensures
        product(g, n) % p == (pow(a, n) * factorial(n)) % p,
    decreases n,
{
    if n == 0 {
        lemma_pow0(a);
        assert(1 * 1 == 1);
    } else {
        let m: nat = (n - 1) as nat;
        lemma_product_of_multiples(g, p, a, m);
        let pm: int = product(g, m);
        let am: int = pow(a, m);
        let fm: int = factorial(m);
        assert(g(n as int) == (a * n) % p);
        assert(pow(a, n) == a * am) by {
            reveal(pow);
        }
        calc! {
            (==)
            product(g, n) % p; {}
            (((a * n) % p) * pm) % p; {
                lemma_mul_mod_noop_general(a * n, pm, p);
            }
            ((a * n) * (pm % p)) % p; {}
            ((a * n) * ((am * fm) % p)) % p; {
                lemma_mul_mod_noop_general(a * n, am * fm, p);
            }
            ((a * n) * (am * fm)) % p; {
                assert((a * n) * (am * fm) == (a * am) * (n * fm)) by (nonlinear_arith);
            }
            ((a * am) * (n * fm)) % p; {}
            (pow(a, n) * factorial(n)) % p;
        }
    }
}

/// Fermat's little theorem: `a^(p-1)` is 1 modulo a prime `p` that does not
/// divide `a`.
pub proof fn lemma_fermat_little(p: int, a: int)
    requires
        is_prime(p),
        a % p != 0,
    ensures
        pow(a, (p - 1) as nat) % p == 1,
{
    let n: nat = (p - 1) as nat;
    let g = |i: int| (a * i) % p;
    assert(injective_into(g, n)) by {
        assert forall|i: int| 1 <= i <= n implies 1 <= #[trigger] g(i) <= n by {
            lemma_mod_bound(a * i, p);
            lemma_small_mod(i as nat, p as nat);
            if (a * i) % p == 0 {
                lemma_euclid(p, a, i);
            }
        }
        assert forall|i: int, j: int| 1 <= i < j <= n implies #[trigger] g(i) != #[trigger] g(j) by {
            lemma_small_mod(i as nat, p as nat);
            lemma_small_mod(j as nat, p as nat);
            if (a * i) % p == (a * j) % p {
                lemma_cancel(p, a, i, j);
            }
        }
    }
    lemma_permutation_product(g, n);
    lemma_product_of_multiples(g, p, a, n);
    lemma_factorial_not_multiple(p, n);
    let f: int = factorial(n);
    let an: int = pow(a, n);
    assert((f * an) % p == (f * 1) % p) by {
        assert(f * an == an * f) by (nonlinear_arith);
        assert(f * 1 == f);
    }
    lemma_cancel(p, f, an, 1);
    lemma_small_mod(1, p as nat);
}

} // verus!
