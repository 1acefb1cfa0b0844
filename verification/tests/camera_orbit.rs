use coolttviz::camera::Camera;
use coolttviz::rat::Rat;

#[test]
fn default_view() {
    let cam = Camera::new();
    assert_eq!((cam.radius.num(), cam.radius.den()), (4, 1));
    assert_eq!((cam.polar.num(), cam.polar.den()), (0, 1));
    // a quarter turn of azimuth, in the library's exact rational angle
    assert_eq!((cam.azimuth.num(), cam.azimuth.den()), (355, 226));
}

#[test]
fn polar_clamps_exactly_at_the_pole() {
    let mut cam = Camera::new();
    assert!(cam.rotate_polar(Rat::from_int(10)));
    // clamped to the quarter-turn bound, stored exactly
    assert_eq!((cam.polar.num(), cam.polar.den()), (355, 226));
}

#[test]
fn polar_clamps_exactly_at_the_south_pole() {
    let mut cam = Camera::new();
    assert!(cam.rotate_polar(Rat::from_int(-10)));
    assert_eq!((cam.polar.num(), cam.polar.den()), (-355, 226));
}

#[test]
fn polar_within_bounds_accumulates() {
    let mut cam = Camera::new();
    assert!(cam.rotate_polar(Rat::new(1, 2).unwrap()));
    assert!(cam.polar.eqv(&Rat::new(1, 2).unwrap()));
}

#[test]
fn zoom_clamps_exactly_at_the_floor() {
    let mut cam = Camera::new();
    // bring the radius to 1 first, then push far past the floor
    assert!(cam.zoom(Rat::from_int(-3)));
    assert!(cam.radius.eqv(&Rat::from_int(1)));
    assert!(cam.zoom(Rat::from_int(-5)));
    assert_eq!((cam.radius.num(), cam.radius.den()), (1, 10));
}

#[test]
fn azimuth_is_unbounded() {
    let mut cam = Camera::new();
    assert!(cam.rotate_azimuth(Rat::from_int(7)));
    assert!(cam.azimuth.eqv(&Rat::new(355 + 7 * 226, 226).unwrap()));
    assert!(cam.rotate_azimuth(Rat::from_int(-100)));
    assert!(cam.azimuth.eqv(&Rat::new(355 + (7 - 100) * 226, 226).unwrap()));
}

#[test]
fn eye_at_the_default_camera() {
    // at polar 0 and a quarter turn of azimuth the trigonometric values
    // are exact: sin 0 = 0, cos 0 = 1, sin = 1, cos = 0
    let cam = Camera::new();
    let zero = Rat::from_int(0);
    let one = Rat::from_int(1);
    let eye = cam.eye(zero, one, one, zero).unwrap();
    assert!(eye.x.eqv(&Rat::from_int(0)));
    assert!(eye.y.eqv(&Rat::from_int(0)));
    assert!(eye.z.eqv(&Rat::from_int(4)));
}

#[test]
fn out_of_range_rotation_leaves_the_camera_unchanged() {
    let mut cam = Camera::new();
    cam.azimuth = Rat::new(i64::MAX, 1).unwrap();
    assert!(!cam.rotate_azimuth(Rat::from_int(1)));
    assert_eq!(cam.azimuth.num(), i64::MAX);
}
