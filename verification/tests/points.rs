use ecurve::elliptic_curve::{ECurve, Point};

fn on_curve(field: u64, b: u64, p: &Point) -> bool {
    let x = p.x as u64 % field;
    let y = p.y as u64 % field;
    (y * y) % field == ((x * x) % field * x + b) % field
}

fn constant_through(field: u64, p: &Point) -> u64 {
    let x = p.x as u64;
    let y = p.y as u64;
    ((y * y) % field + field * field * field - x * x * x) % field
}

#[test]
fn negate_values() {
    let ec = ECurve { field: 101 };
    assert_eq!(ec.neg(&Point { x: 1, y: 2 }), Point { x: 1, y: 99 });
    assert_eq!(ec.neg(&Point { x: 68, y: 74 }), Point { x: 68, y: 27 });
}

#[test]
fn negate_of_zero_ordinate_is_the_field() {
    let ec = ECurve { field: 101 };
    let p = Point { x: 5, y: 0 };
    assert_eq!(ec.neg(&p), Point { x: 5, y: 101 });
    assert_eq!(ec.neg(&ec.neg(&p)), p);
}

#[test]
fn negate_twice_is_identity() {
    let ec = ECurve { field: 101 };
    for x in 0..101 {
        for y in 0..101 {
            let p = Point { x, y };
            assert_eq!(ec.neg(&ec.neg(&p)), p);
        }
    }
}

#[test]
fn double_stays_on_curve() {
    for &field in [2u32, 3, 5, 7, 11, 13, 101].iter() {
        let ec = ECurve { field };
        let f = field as u64;
        for x in 0..field {
            for y in 1..field {
                let p = Point { x, y };
                let b = constant_through(f, &p);
                let d = ec.double(&p);
                assert!(d.x < field && d.y < field);
                assert!(d.x != 0 || d.y != 0);
                assert!(on_curve(f, b, &d));
            }
        }
    }
}

#[test]
fn double_brings_a_multiple_of_the_field_to_zero() {
    // the slope is 1, and 1 - 2 * 51 is -101
    let ec = ECurve { field: 101 };
    assert_eq!(ec.double(&Point { x: 51, y: 13 }), Point { x: 0, y: 38 });
}

#[test]
fn double_commutes_with_negate() {
    for &field in [3u32, 5, 7, 11, 13, 101].iter() {
        let ec = ECurve { field };
        for x in 0..field {
            for y in 1..field {
                let p = Point { x, y };
                let d = ec.double(&p);
                if d.y == 0 {
                    continue;
                }
                assert_eq!(ec.double(&ec.neg(&p)), ec.neg(&d));
            }
        }
    }
    let ec = ECurve { field: 5 };
    let p = Point { x: 3, y: 1 };
    assert_eq!(ec.double(&p), Point { x: 0, y: 2 });
    assert_eq!(ec.neg(&ec.double(&p)), Point { x: 0, y: 3 });
    assert_eq!(ec.double(&ec.neg(&p)), Point { x: 0, y: 3 });
    let seed = ECurve { field: 101 };
    assert_eq!(seed.double(&seed.neg(&Point { x: 1, y: 2 })), Point { x: 68, y: 27 });
}

#[test]
fn add_stays_on_curve() {
    for &field in [2u32, 3, 5, 7, 11, 13].iter() {
        let ec = ECurve { field };
        let f = field as u64;
        for x1 in 0..field {
            for y1 in 0..field {
                let p = Point { x: x1, y: y1 };
                let b = constant_through(f, &p);
                for x2 in 0..field {
                    for y2 in 0..field {
                        let q = Point { x: x2, y: y2 };
                        if x1 == x2 || !on_curve(f, b, &q) {
                            continue;
                        }
                        let s = ec.add(&p, &q);
                        assert!(s.x < field && s.y < field);
                        assert!(on_curve(f, b, &s));
                    }
                }
            }
        }
    }
}

#[test]
fn add_commutes() {
    for &field in [2u32, 3, 5, 7, 11, 13].iter() {
        let ec = ECurve { field };
        for x1 in 0..field {
            for y1 in 0..field {
                for x2 in 0..field {
                    for y2 in 0..field {
                        if x1 == x2 {
                            continue;
                        }
                        let p = Point { x: x1, y: y1 };
                        let q = Point { x: x2, y: y2 };
                        let a = ec.add(&p, &q);
                        assert!(a.x < field && a.y < field);
                        assert_eq!(a, ec.add(&q, &p));
                    }
                }
            }
        }
    }
}

#[test]
fn add_commutes_on_the_seed_curve() {
    let ec = ECurve { field: 101 };
    let p = Point { x: 1, y: 2 };
    let q = Point { x: 68, y: 74 };
    assert_eq!(ec.add(&p, &q), Point { x: 26, y: 45 });
    assert_eq!(ec.add(&q, &p), Point { x: 26, y: 45 });
}

#[test]
fn add_to_a_point_with_zero_ordinate() {
    // the sum is a point of order two: its y is 0 in either order
    let ec = ECurve { field: 101 };
    let p = Point { x: 1, y: 2 };
    let q = Point { x: 75, y: 1 };
    assert_eq!(ec.add(&p, &q), Point { x: 48, y: 0 });
    assert_eq!(ec.add(&q, &p), Point { x: 48, y: 0 });
    assert_eq!(ec.add(&Point { x: 0, y: 1 }, &Point { x: 35, y: 0 }), Point { x: 35, y: 0 });
    assert_eq!(ec.add(&Point { x: 35, y: 0 }, &Point { x: 0, y: 1 }), Point { x: 35, y: 0 });
    let small = ECurve { field: 3 };
    assert_eq!(small.add(&Point { x: 0, y: 1 }, &Point { x: 2, y: 0 }), Point { x: 2, y: 0 });
    assert_eq!(small.add(&Point { x: 2, y: 0 }, &Point { x: 0, y: 1 }), Point { x: 2, y: 0 });
}

#[test]
fn four_times_a_point_by_adding_and_by_doubling() {
    let ec = ECurve { field: 5 };
    let p = Point { x: 2, y: 3 };
    let d = ec.double(&p);
    assert_eq!(d, Point { x: 0, y: 1 });
    let t = ec.add(&d, &p);
    assert_eq!(t, Point { x: 4, y: 0 });
    assert_eq!(ec.add(&t, &p), Point { x: 0, y: 4 });
    assert_eq!(ec.double(&d), Point { x: 0, y: 4 });
    assert_eq!(ec.mul(&p, 4), Point { x: 0, y: 4 });
}

#[test]
fn mul_by_two_is_double() {
    let ec = ECurve { field: 101 };
    for x in 0..101 {
        for y in 1..101 {
            let p = Point { x, y };
            assert_eq!(ec.mul(&p, 2), ec.double(&p));
        }
    }
    assert_eq!(ec.mul(&Point { x: 1, y: 2 }, 2), Point { x: 68, y: 74 });
}

#[test]
fn mul_by_four_is_double_twice() {
    let ec = ECurve { field: 101 };
    for x in 0..101 {
        for y in 1..101 {
            let p = Point { x, y };
            assert_eq!(ec.mul(&p, 4), ec.double(&ec.double(&p)));
        }
    }
    let p = Point { x: 1, y: 2 };
    assert_eq!(ec.mul(&p, 4), Point { x: 65, y: 98 });
    assert_eq!(ec.mul(&p, 8), Point { x: 18, y: 49 });
}

#[test]
fn mul_by_higher_powers_of_two() {
    let ec = ECurve { field: 101 };
    let p = Point { x: 1, y: 2 };
    assert_eq!(ec.mul(&p, 16), Point { x: 1, y: 99 });
    assert_eq!(ec.mul(&p, 32), Point { x: 68, y: 27 });
    assert_eq!(ec.mul(&p, 64), Point { x: 65, y: 3 });
    assert_eq!(ec.mul(&p, 1 << 31), Point { x: 18, y: 52 });
}

#[test]
fn large_field_does_not_overflow() {
    let ec = ECurve { field: 4294967291 };
    let p = Point { x: 1234567890, y: 987654321 };
    let d = ec.double(&p);
    assert_eq!(d, Point { x: 1228709771, y: 60966308 });
    assert_eq!(ec.mul(&p, 4), Point { x: 2665526440, y: 3470467234 });
    assert_eq!(ec.add(&p, &Point { x: 5, y: 7 }), Point { x: 4093768142, y: 3169309402 });
    assert_eq!(ec.pow(123456789, 4294967290), 1);
    let top = Point { x: 4294967290, y: 4294967290 };
    assert_eq!(ec.double(&top), Point { x: 1073741827, y: 1610612743 });
}

#[test]
fn checked_double_values() {
    let ec = ECurve { field: 101 };
    assert_eq!(ec.checked_double(&Point { x: 1, y: 2 }), Some(Point { x: 68, y: 74 }));
    assert_eq!(ec.checked_double(&Point { x: 0, y: 0 }), None);
    // y == 0 has a result, if not a meaningful one: the slope is 1 / 0, taken for 0
    assert_eq!(ec.checked_double(&Point { x: 5, y: 0 }), Some(Point { x: 91, y: 0 }));
    assert_eq!(ECurve { field: 1 }.checked_double(&Point { x: 1, y: 2 }), None);
    assert_eq!(ECurve { field: 0 }.checked_double(&Point { x: 1, y: 2 }), None);
}

#[test]
fn checked_add_values() {
    let ec = ECurve { field: 101 };
    let p = Point { x: 1, y: 2 };
    let q = Point { x: 68, y: 74 };
    assert_eq!(ec.checked_add(&p, &q), Some(Point { x: 26, y: 45 }));
    assert_eq!(ec.checked_add(&p, &q), Some(ec.add(&p, &q)));
    // the same x: the same point, and a point and its mirror image
    assert_eq!(ec.checked_add(&p, &p), None);
    assert_eq!(ec.checked_add(&p, &ec.neg(&p)), None);
    // both differences are multiples of the field: the slope is 0 / 0
    assert_eq!(ec.checked_add(&Point { x: 0, y: 0 }, &Point { x: 101, y: 101 }), None);
    assert_eq!(ec.checked_add(&Point { x: 101, y: 101 }, &Point { x: 0, y: 0 }), None);
    assert_eq!(ECurve { field: 1 }.checked_add(&p, &q), None);
    assert_eq!(ECurve { field: 0 }.checked_add(&p, &q), None);
}

#[test]
fn checked_mul_values() {
    let ec = ECurve { field: 101 };
    let p = Point { x: 1, y: 2 };
    assert_eq!(ec.checked_mul(&p, 2), Some(Point { x: 68, y: 74 }));
    assert_eq!(ec.checked_mul(&p, 4), Some(Point { x: 65, y: 98 }));
    assert_eq!(ec.checked_mul(&p, 8), Some(Point { x: 18, y: 49 }));
    for n in [2u32, 4, 8, 16, 32, 64, 1 << 31].iter() {
        assert_eq!(ec.checked_mul(&p, *n), Some(ec.mul(&p, *n)));
    }
    // odd
    assert_eq!(ec.checked_mul(&p, 1), None);
    assert_eq!(ec.checked_mul(&p, 3), None);
    assert_eq!(ec.checked_mul(&p, 5), None);
    // even, with an odd half
    assert_eq!(ec.checked_mul(&p, 0), None);
    assert_eq!(ec.checked_mul(&p, 6), None);
    assert_eq!(ec.checked_mul(&p, 10), None);
    assert_eq!(ec.checked_mul(&p, 12), None);
    assert_eq!(ec.checked_mul(&p, 14), None);
    assert_eq!(ec.checked_mul(&p, 20), None);
    assert_eq!(ec.checked_mul(&p, 22), None);
    assert_eq!(ec.checked_mul(&p, u32::MAX - 1), None);
    // none but the powers of two from 2 on
    for n in 0..5000u32 {
        let power = n >= 2 && n & (n - 1) == 0;
        assert_eq!(ec.checked_mul(&p, n).is_some(), power);
    }
    // nothing to double
    assert_eq!(ec.checked_mul(&Point { x: 0, y: 0 }, 2), None);
    assert_eq!(ECurve { field: 1 }.checked_mul(&p, 2), None);
}

#[test]
fn checked_mul_stops_at_a_point_that_cannot_be_doubled() {
    // modulo 22, which is no prime, (8, 10) doubles to (0, 0)
    let ec = ECurve { field: 22 };
    let p = Point { x: 8, y: 10 };
    assert_eq!(ec.checked_mul(&p, 2), Some(Point { x: 0, y: 0 }));
    assert_eq!(ec.checked_mul(&p, 4), None);
}
