use coolttviz::linalg::project;
use coolttviz::rat::Rat;

fn r(n: i64, d: i64) -> Rat {
    Rat::new(n, d).unwrap()
}

#[test]
fn identity_for_three_coordinates() {
    let v = vec![r(2, 3), r(-5, 1), r(7, 2)];
    let p = project(&v).unwrap();
    assert_eq!((p.x.num(), p.x.den()), (2, 3));
    assert_eq!((p.y.num(), p.y.den()), (-5, 1));
    assert_eq!((p.z.num(), p.z.den()), (7, 2));
}

#[test]
fn shorter_points_are_zero_padded() {
    let v = vec![r(4, 1)];
    let p = project(&v).unwrap();
    assert_eq!((p.x.num(), p.x.den()), (4, 1));
    assert_eq!((p.y.num(), p.y.den()), (0, 1));
    assert_eq!((p.z.num(), p.z.den()), (0, 1));

    let empty: Vec<Rat> = vec![];
    let p0 = project(&empty).unwrap();
    assert_eq!((p0.x.num(), p0.y.num(), p0.z.num()), (0, 0, 0));
}

#[test]
fn deterministic_bitwise() {
    let v = vec![r(1, 1), r(-1, 1), r(1, 1), r(-1, 1), r(1, 1)];
    let p1 = project(&v).unwrap();
    let p2 = project(&v).unwrap();
    assert_eq!((p1.x.num(), p1.x.den()), (p2.x.num(), p2.x.den()));
    assert_eq!((p1.y.num(), p1.y.den()), (p2.y.num(), p2.y.den()));
    assert_eq!((p1.z.num(), p1.z.den()), (p2.z.num(), p2.z.den()));
}

#[test]
fn four_dimensional_point_is_scaled_once() {
    // depth coordinate 1: every coordinate is scaled by t/(1+3),
    // with t = 408/985 the rational half-tangent
    let v = vec![r(2, 1), r(-2, 1), r(1, 1), r(1, 1)];
    let p = project(&v).unwrap();
    let scale = r(408, 985).div(&r(4, 1)).unwrap();
    let ex = scale.mul(&r(2, 1)).unwrap();
    assert!(p.x.eqv(&ex));
    let ey = scale.mul(&r(-2, 1)).unwrap();
    assert!(p.y.eqv(&ey));
    let ez = scale.mul(&r(1, 1)).unwrap();
    assert!(p.z.eqv(&ez));
}

#[test]
fn zero_divisor_has_no_exact_value() {
    // fourth coordinate -3 drives the divisor to zero
    let v = vec![r(1, 1), r(1, 1), r(1, 1), r(-3, 1)];
    assert!(project(&v).is_none());
}
