use ecurve::elliptic_curve::{ECurve, Point};

fn on_seed_curve(p: &Point) -> bool {
    // y^2 = x^3 + 3 (mod 101)
    let x = p.x as u64;
    let y = p.y as u64;
    (y * y) % 101 == (x * x * x + 3) % 101
}

#[test]
fn double_of_seed_point_on_field_101() {
    let ec = ECurve { field: 101 };
    let p = Point { x: 1, y: 2 };
    // the slope is 3/4: the inverse of 4 is 4^99 mod 101 = 76, and 3 * 76 mod 101 = 26
    assert_eq!(ec.pow(4, 99), 76);
    assert_eq!(ec.frac_to_element(3, 4), 26);
    let d = ec.double(&p);
    assert_eq!(d, Point { x: 68, y: 74 });
    // b = 2^2 - 1^3 = 3
    assert!(on_seed_curve(&p));
    assert!(on_seed_curve(&d));
}

#[test]
fn negate_of_double_on_field_101() {
    let ec = ECurve { field: 101 };
    let p = Point { x: 1, y: 2 };
    let d = ec.double(&p);
    assert_eq!(ec.neg(&d), Point { x: d.x, y: 101 - d.y });
    assert_eq!(ec.neg(&d), Point { x: 68, y: 27 });
}

#[test]
fn multiples_of_the_seed_point() {
    let ec = ECurve { field: 101 };
    let p = Point { x: 1, y: 2 };
    let expected = [
        (26, 45), (65, 98), (12, 32), (32, 42), (91, 35), (18, 49), (18, 52),
        (91, 66), (32, 59), (12, 69), (65, 3), (26, 56), (68, 27), (1, 99),
    ];
    let mut q = ec.mul(&p, 2);
    assert_eq!(q, Point { x: 68, y: 74 });
    for &(x, y) in expected.iter() {
        q = ec.add(&q, &p);
        assert_eq!(q, Point { x, y });
        assert!(on_seed_curve(&q));
    }
    // the last multiple is the mirror image of the seed point
    assert_eq!(q, ec.neg(&p));
    // 4p and 8p by doubling are the same points as by adding
    assert_eq!(ec.mul(&p, 4), Point { x: expected[1].0, y: expected[1].1 });
    assert_eq!(ec.mul(&p, 8), Point { x: expected[5].0, y: expected[5].1 });
}
