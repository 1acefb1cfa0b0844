//! The worked end-to-end scene: a unit 3-cube, the default camera, and
//! a pick straight through the middle of the screen.

use coolttviz::camera::Camera;
use coolttviz::cube::Cube;
use coolttviz::rat::Rat;

#[test]
fn unit_cube_from_the_default_camera() {
    let axes: Vec<String> = ["i", "j", "k"].iter().map(|s| s.to_string()).collect();
    let cube = Cube::new(&axes, Rat::from_int(1)).unwrap();
    assert_eq!(cube.faces.len(), 6);

    // the default camera sits a quarter turn around, 4 away: its eye is
    // (4*cos(pi/2), 0, 4*sin(pi/2)) = (0, 0, 4), exactly representable
    let cam = Camera::new();
    let zero = Rat::from_int(0);
    let one = Rat::from_int(1);
    let eye = cam.eye(zero, one, one, zero).unwrap();
    assert_eq!((eye.x.num(), eye.y.num(), eye.z.num()), (0, 0, 4));

    // the picking direction runs from the scene back toward the eye
    let toward_eye = eye.sub(&coolttviz::linalg::Vec3::new(zero, zero, zero)).unwrap();
    let picked = cube.intersections(&eye, &toward_eye).unwrap();

    // the ray passes through the +k face first, then the -k face; the
    // four side faces are parallel to it
    assert_eq!(picked.len(), 2);
    let (hit, face) = &picked[0];
    assert_eq!(face.dims, vec![("k".to_string(), true)]);
    assert!(hit.x.eqv(&Rat::from_int(0)));
    assert!(hit.y.eqv(&Rat::from_int(0)));
    assert!(hit.z.eqv(&Rat::from_int(1)));
    let (_, behind) = &picked[1];
    assert_eq!(behind.dims, vec![("k".to_string(), false)]);
}
