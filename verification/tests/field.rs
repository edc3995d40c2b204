use ecurve::elliptic_curve::ECurve;

#[test]
fn modular_boundaries() {
    let ec = ECurve { field: 101 };
    assert_eq!(ec.modular(-1), 100);
    assert_eq!(ec.modular(0), 0);
}

#[test]
fn modular_of_other_values() {
    let ec = ECurve { field: 101 };
    assert_eq!(ec.modular(100), 100);
    assert_eq!(ec.modular(101), 0);
    assert_eq!(ec.modular(202), 0);
    assert_eq!(ec.modular(-17500), 74);
    assert_eq!(ec.modular(-100), 1);
    let big = ECurve { field: 4294967291 };
    assert_eq!(big.modular(-(1i128 << 96)), 4294967166);
    assert_eq!(big.modular(i128::MAX), (i128::MAX % 4294967291) as u32);
    assert_eq!(big.modular(i128::MIN + 1), 4294967291 - (i128::MAX % 4294967291) as u32);
}

#[test]
fn modular_of_a_multiple_is_zero() {
    let ec = ECurve { field: 101 };
    assert_eq!(ec.modular(-101), 0);
    assert_eq!(ec.modular(-202), 0);
    assert_eq!(ec.modular(101), 0);
    let big = ECurve { field: 4294967291 };
    assert_eq!(big.modular(-4294967291), 0);
    assert_eq!(big.modular(-4294967291 * 4294967291), 0);
}

#[test]
fn modular_is_the_residue() {
    for &field in [1u32, 2, 7, 101].iter() {
        let ec = ECurve { field };
        let f = field as i128;
        for a in -250..250i128 {
            let r = ec.modular(a) as i128;
            assert!(0 <= r && r < f);
            assert_eq!(r, a.rem_euclid(f));
        }
    }
}

#[test]
fn modular_ignores_multiples_of_the_field() {
    let ec = ECurve { field: 101 };
    for a in -150..150i128 {
        for k in -3..4i128 {
            assert_eq!(ec.modular(a + k * 101), ec.modular(a));
        }
    }
}

#[test]
fn gcd_values() {
    assert_eq!(ECurve::gcd(12, 18), 6);
    assert_eq!(ECurve::gcd(18, 12), 6);
    assert_eq!(ECurve::gcd(3, 4), 1);
    assert_eq!(ECurve::gcd(0, 7), 7);
    assert_eq!(ECurve::gcd(7, 0), 7);
    assert_eq!(ECurve::gcd(0, 0), 0);
    assert_eq!(ECurve::gcd(3 * 1234567890u128 * 1234567890u128, 2 * 987654321), 18);
    assert_eq!(ECurve::gcd(u128::MAX, 1), 1);
}

#[test]
fn gcd_is_the_greatest_common_divisor() {
    for a in 0..40u128 {
        for b in 0..40u128 {
            let g = ECurve::gcd(a, b);
            if a == 0 && b == 0 {
                assert_eq!(g, 0);
                continue;
            }
            assert!(g > 0 && a % g == 0 && b % g == 0);
            for d in 1..40u128 {
                if a % d == 0 && b % d == 0 {
                    assert_eq!(g % d, 0);
                }
            }
        }
    }
}

#[test]
fn pow_values() {
    let ec = ECurve { field: 101 };
    assert_eq!(ec.pow(4, 99), 76);
    assert_eq!(ec.pow(5, 0), 1);
    assert_eq!(ec.pow(5, 1), 5);
    assert_eq!(ec.pow(5, 99), 81);
    assert_eq!(ec.pow(0, 5), 0);
    assert_eq!(ec.pow(0, 0), 1);
    assert_eq!(ec.pow(106, 99), 81);
    assert_eq!(ec.pow(2, 10), 1024 % 101);
    assert_eq!(ec.pow(u64::MAX, 3), 54);
}

#[test]
fn pow_in_field_of_one_element_is_zero() {
    let ec = ECurve { field: 1 };
    assert_eq!(ec.pow(5, 3), 0);
    assert_eq!(ec.pow(5, 0), 0);
    assert_eq!(ec.pow(0, 0), 0);
}

#[test]
fn pow_fermat_and_inverse() {
    for &field in [2u32, 3, 5, 7, 101, 65537, 4294967291].iter() {
        let ec = ECurve { field };
        for b in 1..60u64 {
            if b % field as u64 == 0 {
                continue;
            }
            assert_eq!(ec.pow(b, field - 1), 1);
            let inv = ec.pow(b, field - 2) as u128;
            assert_eq!((b as u128 * inv) % field as u128, 1);
        }
    }
}

#[test]
fn frac_to_element_values() {
    let ec = ECurve { field: 101 };
    assert_eq!(ec.frac_to_element(3, 4), 26);
    assert_eq!(ec.frac_to_element(6, 8), 26);
    assert_eq!(ec.frac_to_element(10, 5), 2);
    assert_eq!(ec.frac_to_element(0, 7), 0);
    let big = ECurve { field: 4294967291 };
    let x: u128 = 1234567890;
    assert_eq!(big.frac_to_element(3 * x * x, 2 * 987654321), 313627599);
}

#[test]
fn frac_to_element_is_the_quotient() {
    let ec = ECurve { field: 101 };
    for a in 0..150u128 {
        for b in 1..150u64 {
            if b % 101 == 0 {
                continue;
            }
            let r = ec.frac_to_element(a, b) as u128;
            assert!(r < 101);
            assert_eq!((r * b as u128) % 101, a % 101);
        }
    }
}

#[test]
fn frac_to_element_over_a_composite_is_no_quotient() {
    // 3^6 = 729 = 1 (mod 8), and 1 * 3 is not 1
    let ec = ECurve { field: 8 };
    assert_eq!(ec.pow(3, 6), 1);
    assert_eq!(ec.frac_to_element(1, 3), 1);
}

#[test]
fn frac_to_element_reduces_the_fraction_first() {
    // 101 / 202 is 1 / 2 in lowest terms, though 101 divides the denominator
    let ec = ECurve { field: 101 };
    assert_eq!(ec.frac_to_element(101, 202), 51);
    assert_eq!(ec.frac_to_element(1, 2), 51);
    // 0 / b is 0 / 1, and 1^(f-2) is 1
    assert_eq!(ec.frac_to_element(0, 101), 0);
    // a / 0 is 1 / 0, and 0^(f-2) is 0
    assert_eq!(ec.frac_to_element(5, 0), 0);
}
