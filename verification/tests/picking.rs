use coolttviz::cube::{Cube, Face};
use coolttviz::linalg::Vec3;
use coolttviz::rat::Rat;

fn ri(n: i64) -> Rat {
    Rat::from_int(n)
}

fn v3(x: i64, y: i64, z: i64) -> Vec3 {
    Vec3::new(ri(x), ri(y), ri(z))
}

/// An axis-aligned square spanning x,y in [-1,1] at height `z`, with
/// the corner order and normal convention of the facet builder.
fn square_at(z: i64) -> Face {
    let bl = v3(-1, -1, z);
    let br = v3(1, -1, z);
    let tl = v3(-1, 1, z);
    let tr = v3(1, 1, z);
    let horiz = br.sub(&bl).unwrap();
    let vert = tl.sub(&bl).unwrap();
    let normal = horiz.cross(&vert).unwrap();
    Face { points: [bl, br, tl, tr], normal, dims: Vec::new() }
}

#[test]
fn ray_hits_facet_in_front() {
    // the direction points from the scene back toward the eye, so a
    // forward hit has a negative parameter
    let f = square_at(1);
    let origin = v3(0, 0, 5);
    let dir = v3(0, 0, 1);
    let hit = f.intersect(&origin, &dir).unwrap().unwrap();
    assert!(hit.x.eqv(&ri(0)));
    assert!(hit.y.eqv(&ri(0)));
    assert!(hit.z.eqv(&ri(1)));
}

#[test]
fn ray_misses_outside_the_quad() {
    let f = square_at(1);
    let origin = v3(5, 0, 5);
    let dir = v3(0, 0, 1);
    assert!(f.intersect(&origin, &dir).unwrap().is_none());
}

#[test]
fn parallel_ray_is_no_intersection() {
    let f = square_at(1);
    let origin = v3(0, 0, 5);
    let dir = v3(1, 0, 0);
    assert!(f.intersect(&origin, &dir).unwrap().is_none());
}

#[test]
fn hits_behind_the_eye_are_ignored() {
    // flipping the direction flips the sign convention: the same facet
    // now lies "behind" and must be ignored
    let f = square_at(1);
    let origin = v3(0, 0, 5);
    let dir = v3(0, 0, -1);
    assert!(f.intersect(&origin, &dir).unwrap().is_none());
}

#[test]
fn out_of_range_geometry_is_an_error() {
    let huge = Rat::new(i64::MAX, 1).unwrap();
    let big = Vec3::new(huge, huge, huge);
    let f = Face { points: [big, big, big, big], normal: big, dims: Vec::new() };
    assert!(f.intersect(&big, &big).is_err());
}

#[test]
fn nearest_facet_comes_first() {
    // two parallel facets directly ahead; the farther one is generated
    // first, yet picking puts the nearer one first
    let far = square_at(1);
    let near = square_at(2);
    let cube = Cube { faces: vec![far, near] };
    let origin = v3(0, 0, 5);
    let dir = v3(0, 0, 1);
    let picked = cube.intersections(&origin, &dir).unwrap();
    assert_eq!(picked.len(), 2);
    assert!(picked[0].0.z.eqv(&ri(2)));
    assert!(picked[1].0.z.eqv(&ri(1)));
    // the nearer hit is strictly nearer
    let d0 = origin.sub(&picked[0].0).unwrap();
    let d1 = origin.sub(&picked[1].0).unwrap();
    let k0 = d0.dot(&d0).unwrap();
    let k1 = d1.dot(&d1).unwrap();
    assert!(k0.lt(&k1));
}

#[test]
fn equal_distances_keep_generation_order() {
    // two coincident facets: the earlier-generated one stays first
    let mut a = square_at(1);
    a.dims = vec![("first".to_string(), true)];
    let mut b = square_at(1);
    b.dims = vec![("second".to_string(), true)];
    let cube = Cube { faces: vec![a, b] };
    let origin = v3(0, 0, 5);
    let dir = v3(0, 0, 1);
    let picked = cube.intersections(&origin, &dir).unwrap();
    assert_eq!(picked.len(), 2);
    assert_eq!(picked[0].1.dims[0].0, "first");
    assert_eq!(picked[1].1.dims[0].0, "second");
}

#[test]
fn no_hits_no_entries() {
    let cube = Cube { faces: vec![square_at(1)] };
    let origin = v3(0, 0, 5);
    let dir = v3(1, 0, 0);
    let picked = cube.intersections(&origin, &dir).unwrap();
    assert!(picked.is_empty());
}
