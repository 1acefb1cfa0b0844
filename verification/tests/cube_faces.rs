use coolttviz::cube::Cube;
use coolttviz::rat::Rat;

fn axes(names: &[&str]) -> Vec<String> {
    names.iter().map(|s| s.to_string()).collect()
}

#[test]
fn facet_count_three_axes() {
    let c = Cube::new(&axes(&["i", "j", "k"]), Rat::from_int(1)).unwrap();
    assert_eq!(c.faces.len(), 6);
}

#[test]
fn facet_count_four_axes() {
    let c = Cube::new(&axes(&["i", "j", "k", "l"]), Rat::from_int(1)).unwrap();
    assert_eq!(c.faces.len(), 24);
}

#[test]
fn facet_count_five_axes() {
    let c = Cube::new(&axes(&["a", "b", "c", "d", "e"]), Rat::from_int(1)).unwrap();
    assert_eq!(c.faces.len(), 80);
}

#[test]
fn two_axes_make_a_single_square() {
    let c = Cube::new(&axes(&["i", "j"]), Rat::from_int(1)).unwrap();
    assert_eq!(c.faces.len(), 1);
    let f = &c.faces[0];
    assert!(f.dims.is_empty());
    // corners bl, br, tl, tr at every sign combination of the two axes
    let expect = [(-1, -1), (1, -1), (-1, 1), (1, 1)];
    for (p, (ex, ey)) in f.points.iter().zip(expect.iter()) {
        assert_eq!((p.x.num(), p.x.den()), (*ex, 1));
        assert_eq!((p.y.num(), p.y.den()), (*ey, 1));
        assert_eq!((p.z.num(), p.z.den()), (0, 1));
    }
}

#[test]
fn corner_signs_agree_with_fixed_axis_list() {
    // with three axes the projection is the identity, so each corner's
    // coordinates are directly the +-size signs of its vertex pattern
    let names = ["i", "j", "k"];
    let c = Cube::new(&axes(&names), Rat::from_int(1)).unwrap();
    for f in &c.faces {
        assert_eq!(f.dims.len(), 1);
        let (fixed_name, fixed_sign) = &f.dims[0];
        let fixed_axis = names.iter().position(|n| n == fixed_name).unwrap();
        let mut free_combos = Vec::new();
        for p in &f.points {
            let coords = [p.x.num(), p.y.num(), p.z.num()];
            // the fixed axis keeps the recorded sign on every corner
            assert_eq!(coords[fixed_axis] > 0, *fixed_sign);
            let frees: Vec<i64> = (0..3).filter(|a| *a != fixed_axis).map(|a| coords[a]).collect();
            free_combos.push((frees[0], frees[1]));
        }
        // the four corners take all four sign combinations, in the
        // fixed order bl, br, tl, tr
        assert_eq!(free_combos, vec![(-1, -1), (1, -1), (-1, 1), (1, 1)]);
    }
}

#[test]
fn rejects_sizes_only_outside_machine_range() {
    // a large but representable size still succeeds for a 3-cube
    let c = Cube::new(&axes(&["i", "j", "k"]), Rat::from_int(32768));
    assert!(c.is_some());
    // with a fourth axis the perspective divisor leaves the range
    let d = Cube::new(&axes(&["i", "j", "k", "l"]), Rat::new(i64::MAX, 1).unwrap());
    assert!(d.is_none());
}

#[test]
fn fractional_size_scales_corners() {
    let half = Rat::new(1, 2).unwrap();
    let c = Cube::new(&axes(&["i", "j"]), half).unwrap();
    let p = &c.faces[0].points[3];
    assert!(p.x.eqv(&half));
    assert!(p.y.eqv(&half));
}

#[test]
fn normal_is_cross_of_edges() {
    // +k face of the unit 3-cube spans i and j at k=+1; its normal is
    // (br-bl) x (tl-bl) = (2,0,0) x (0,2,0) = (0,0,4)
    let c = Cube::new(&axes(&["i", "j", "k"]), Rat::from_int(1)).unwrap();
    let f = c
        .faces
        .iter()
        .find(|f| f.dims == vec![("k".to_string(), true)])
        .unwrap();
    assert!(f.normal.x.eqv(&Rat::from_int(0)));
    assert!(f.normal.y.eqv(&Rat::from_int(0)));
    assert!(f.normal.z.eqv(&Rat::from_int(4)));
}
