use coolttviz::rat::Rat;

#[test]
fn constructs_and_reduces_nothing_eagerly() {
    let r = Rat::new(3, 4).unwrap();
    assert_eq!(r.num(), 3);
    assert_eq!(r.den(), 4);
}

#[test]
fn zero_denominator_has_no_value() {
    assert!(Rat::new(5, 0).is_none());
}

#[test]
fn negative_denominator_is_normalized() {
    let r = Rat::new(3, -4).unwrap();
    assert!(r.eqv(&Rat::new(-3, 4).unwrap()));
    assert!(r.den() > 0);
}

#[test]
fn equivalence_ignores_representation() {
    let a = Rat::new(2, 4).unwrap();
    let b = Rat::new(1, 2).unwrap();
    assert!(a.eqv(&b));
    assert!(!a.lt(&b));
    assert!(a.le(&b));
}

#[test]
fn exact_field_arithmetic() {
    let a = Rat::new(1, 3).unwrap();
    let b = Rat::new(1, 6).unwrap();
    let sum = a.add(&b).unwrap();
    assert!(sum.eqv(&Rat::new(1, 2).unwrap()));
    let diff = a.sub(&b).unwrap();
    assert!(diff.eqv(&Rat::new(1, 6).unwrap()));
    let prod = a.mul(&b).unwrap();
    assert!(prod.eqv(&Rat::new(1, 18).unwrap()));
    let quot = a.div(&b).unwrap();
    assert!(quot.eqv(&Rat::from_int(2)));
}

#[test]
fn comparison_is_exact_at_close_values() {
    // 1/3 against a very near neighbour: no rounding can conflate them
    let a = Rat::new(1, 3).unwrap();
    let b = Rat::new(333333333333333333, 1000000000000000000).unwrap();
    assert!(b.lt(&a));
    assert!(!a.eqv(&b));
}

#[test]
fn addition_out_of_range_is_reported() {
    let big = Rat::new(i64::MAX, 1).unwrap();
    let one = Rat::from_int(1);
    assert!(big.add(&one).is_none());
}

#[test]
fn reduction_rescues_large_intermediates() {
    // (1/2^40) * (2^40/3) reduces to 1/3 even though the raw product
    // of denominators does not fit
    let a = Rat::new(1, 1 << 40).unwrap();
    let b = Rat::new(1 << 40, 3).unwrap();
    let p = a.mul(&b).unwrap();
    assert!(p.eqv(&Rat::new(1, 3).unwrap()));
}
