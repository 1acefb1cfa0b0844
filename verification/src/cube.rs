//! Facet generation for an N-dimensional hypercube, and ray picking.
//!
//! A 2-dimensional facet of the cube is chosen by picking the two axes
//! that vary across it and a placement among the remaining fixed axes.
//! Placements are enumerated through integer bit patterns: a pattern of
//! the `N-2` fixed-axis signs is expanded to an `N`-bit vertex pattern by
//! inserting a zero bit at each of the two free axes, and every bit then
//! selects `+size` or `-size` for its axis.

use vstd::prelude::*;

use crate::linalg::pad3;
use crate::linalg::collapse_state;
use crate::linalg::passes_defined;
use crate::linalg::project;
use crate::linalg::trip_add;
use crate::linalg::trip_cross;
use crate::linalg::trip_dot;
use crate::linalg::trip_eqv;
use crate::linalg::trip_scale;
use crate::linalg::trip_sub;
use crate::linalg::trip_wf;
use crate::linalg::lemma_trip_cong;
use crate::linalg::lemma_trip_eqv_trans;
use crate::linalg::lemma_trip_op_wf;
use crate::linalg::lemma_trip_scale_cong;
use crate::linalg::lemma_trip_scale_wf;
use crate::linalg::Triple;
use crate::linalg::Vec3;
use crate::rat::lemma_div_cong;
use crate::rat::lemma_eqv_zero;
use crate::rat::lemma_eqv_trans;
use crate::rat::lemma_order_cong;
use crate::rat::lemma_order_trans;
use crate::rat::lemma_pair_op_wf;
use crate::rat::pair_add;
use crate::rat::pair_div;
use crate::rat::pair_eqv;
use crate::rat::pair_fits;
use crate::rat::pair_lt;
use crate::rat::pair_mul;
use crate::rat::pair_sub;
use crate::rat::pair_sub_c;
use crate::rat::pair_le;
use crate::rat::pair_neg;
use crate::rat::pair_wf;
use crate::rat::Rat;

verus! {

/// Bit `i` of `x`.
pub open spec fn get_bit(x: u32, i: u32) -> bool {
    (x >> i) & 1 == 1
}

/// Insert a zero bit at `ix`, shifting the bits at and above `ix` up.
pub open spec fn insert_zero_bit(bits: u32, ix: u32) -> u32 {
    ((u32::MAX << ((ix + 1) as u32)) & (bits << 1u32)) | ((((1u32 << ix) - 1) as u32) & bits)
}

/// Per-bit reading of `insert_zero_bit`: bits below `ix` are unchanged,
/// bit `ix` is clear, and bits above come from one position lower.
pub proof fn lemma_insert_zero_bit(bits: u32, ix: u32)
    by (bit_vector)
    requires
        ix <= 30,
    ensures
        forall|j: u32|
            j < 32 ==> get_bit(insert_zero_bit(bits, ix), j) == (if j < ix {
                get_bit(bits, j)
            } else if j == ix {
                false
            } else {
                get_bit(bits, (j - 1) as u32)
            }),
{
}

/// Setting one bit leaves every other bit unchanged.
pub proof fn lemma_set_bit(x: u32, i: u32)
    by (bit_vector)
    requires
        i <= 31,
    ensures
        forall|j: u32|
            j < 32 ==> get_bit(x | (1u32 << i), j) == (if j == i {
                true
            } else {
                get_bit(x, j)
            }),
{
}

/// Insert a zero bit at `ix`, shifting the upper bits to compensate.
fn insert_bit(bits: u32, ix: u32) -> (r: u32)
    requires
        ix <= 30,
    ensures
        r == insert_zero_bit(bits, ix),
{
    let upper_mask: u32 = u32::MAX << (ix + 1);
    let upper: u32 = upper_mask & (bits << 1);
    proof {
        assert(1u32 << ix >= 1) by (bit_vector)
            requires
                ix <= 30,
        ;
    }
    let lower_mask: u32 = (1u32 << ix) - 1;
    let lower: u32 = lower_mask & bits;
    upper | lower
}

/// The signs an `N`-bit vertex pattern selects: bit set means `+size`,
/// bit clear means `-size`.
pub open spec fn signs_of(bits: u32, n: int, size: (int, int)) -> Seq<(int, int)> {
    Seq::new(n as nat, |i: int| if get_bit(bits, i as u32) {
        size
    } else {
        pair_neg(size)
    })
}

/// Turn the bits of a `u32` into an n-dimensional point.
fn point(bits: u32, dim: u32, size: Rat) -> (v: Vec<Rat>)
    requires
        size.wf(),
        dim <= 30,
    ensures
        v@.len() == dim as int,
        forall|i: int|
            0 <= i < dim as int ==> (#[trigger] v@[i]).wf() && v@[i]@ == signs_of(
                bits,
                dim as int,
                size@,
            )[i],
{
    let mut v: Vec<Rat> = Vec::new();
    let mut i: u32 = 0;
    while i < dim
        invariant
            i <= dim,
            dim <= 30,
            size.wf(),
            v@.len() == i as int,
            forall|j: int|
                0 <= j < i as int ==> (#[trigger] v@[j]).wf() && v@[j]@ == signs_of(
                    bits,
                    dim as int,
                    size@,
                )[j],
        decreases dim - i,
    {
        proof {
            assert((((1u32 << i) & bits) == 0) == !get_bit(bits, i)) by (bit_vector)
                requires
                    i < 32,
            ;
        }
        let b: Rat = if ((1u32 << i) & bits) == 0 {
            size.neg()
        } else {
            size
        };
        v.push(b);
        i += 1;
    }
    v
}

/// The axis index that position `j` of a fixed-axis list refers to, once
/// the two free axes `d0 < d1` are skipped.
pub open spec fn unskip(j: int, d0: int, d1: int) -> int {
    if j < d0 {
        j
    } else if j < d1 - 1 {
        j + 1
    } else {
        j + 2
    }
}

/// Record the name and sign of every axis that does not vary.
fn dims_from_point(dim_names: &Vec<String>, point: &Vec<Rat>, d0: u32, d1: u32) -> (dims: Vec<
    (String, bool),
>)
    requires
        dim_names@.len() == point@.len(),
        dim_names@.len() <= 30,
        (d0 as int) < (d1 as int) < dim_names@.len(),
        forall|i: int| 0 <= i < point@.len() ==> (#[trigger] point@[i]).wf(),
    ensures
        dims@.len() == dim_names@.len() - 2,
        forall|j: int|
            0 <= j < dims@.len() ==> (#[trigger] dims@[j]).0@ == dim_names@[unskip(
                j,
                d0 as int,
                d1 as int,
            )]@ && dims@[j].1 == pair_lt((0int, 1int), point@[unskip(j, d0 as int, d1 as int)]@),
{
    let zero = Rat::zero();
    let mut dims: Vec<(String, bool)> = Vec::new();
    let n: usize = dim_names.len();
    let mut i: usize = 0;
    while i < n
        invariant
            i <= n,
            n == dim_names@.len(),
            n == point@.len(),
            n <= 30,
            (d0 as int) < (d1 as int) < n as int,
            zero@ == (0int, 1int),
            zero.wf(),
            forall|q: int| 0 <= q < point@.len() ==> (#[trigger] point@[q]).wf(),
            dims@.len() == i as int - (if i as int > d0 as int {
                1int
            } else {
                0int
            }) - (if i as int > d1 as int {
                1int
            } else {
                0int
            }),
            forall|j: int|
                0 <= j < dims@.len() ==> (#[trigger] dims@[j]).0@ == dim_names@[unskip(
                    j,
                    d0 as int,
                    d1 as int,
                )]@ && dims@[j].1 == pair_lt(
                    (0int, 1int),
                    point@[unskip(j, d0 as int, d1 as int)]@,
                ),
        decreases n - i,
    {
        let iu: u32 = i as u32;
        if iu != d0 && iu != d1 {
            let d: bool = zero.lt(&point[i]);
            let name: String = dim_names[i].clone();
            proof {
                assert(unskip(dims@.len() as int, d0 as int, d1 as int) == i as int);
            }
            dims.push((name, d));
        }
        i += 1;
    }
    dims
}

/// A coordinate that is an integer of magnitude at most 8; rays and
/// facets built from such coordinates are guaranteed to intersect
/// without leaving the machine range.  The bound is close to the widest
/// possible: the inside-out test is cubic in the coordinates, so inputs
/// with larger numerators or real denominators can reach exact values
/// whose reduced form has no `i64` representation.
pub open spec fn small_pair(p: (int, int)) -> bool {
    p.1 == 1 && -8 <= p.0 <= 8
}

pub open spec fn small_trip(t: Triple) -> bool {
    small_pair(t.0) && small_pair(t.1) && small_pair(t.2)
}

/// The ranges a plane intersection point computed from small
/// coordinates can reach.
pub open spec fn hit_range(t: Triple) -> bool {
    &&& 1 <= t.0.1 <= 192 && -4608 <= t.0.0 <= 4608
    &&& 1 <= t.1.1 <= 192 && -4608 <= t.1.0 <= 4608
    &&& 1 <= t.2.1 <= 192 && -4608 <= t.2.0 <= 4608
}

/// A facet whose corners and normal are all small integer points.
pub open spec fn small_face(f: Face) -> bool {
    &&& small_trip(f.points@[0]@)
    &&& small_trip(f.points@[1]@)
    &&& small_trip(f.points@[2]@)
    &&& small_trip(f.points@[3]@)
    &&& small_trip(f.normal@)
}

/// Bounds of a product of bounded pairs.
proof fn lemma_bnd_mul(a: (int, int), b: (int, int), na: int, da: int, nb: int, db: int)
    by (nonlinear_arith)
    requires
        0 <= na,
        0 <= nb,
        1 <= da,
        1 <= db,
        -na <= a.0 <= na,
        1 <= a.1 <= da,
        -nb <= b.0 <= nb,
        1 <= b.1 <= db,
    ensures
        -(na * nb) <= pair_mul(a, b).0 <= na * nb,
        1 <= pair_mul(a, b).1 <= da * db,
{
}

/// Bounds of a sum or difference of bounded pairs.
proof fn lemma_bnd_addsub(a: (int, int), b: (int, int), na: int, da: int, nb: int, db: int)
    by (nonlinear_arith)
    requires
        0 <= na,
        0 <= nb,
        1 <= da,
        1 <= db,
        -na <= a.0 <= na,
        1 <= a.1 <= da,
        -nb <= b.0 <= nb,
        1 <= b.1 <= db,
    ensures
        -(na * db + nb * da) <= pair_add(a, b).0 <= na * db + nb * da,
        -(na * db + nb * da) <= pair_sub(a, b).0 <= na * db + nb * da,
        1 <= pair_add(a, b).1 <= da * db,
        pair_sub(a, b).1 == pair_add(a, b).1,
{
}

/// Bounds of a quotient of bounded pairs with a non-zero divisor.
proof fn lemma_bnd_div(a: (int, int), b: (int, int), na: int, da: int, nb: int, db: int)
    by (nonlinear_arith)
    requires
        0 <= na,
        0 <= nb,
        1 <= da,
        1 <= db,
        -na <= a.0 <= na,
        1 <= a.1 <= da,
        -nb <= b.0 <= nb,
        1 <= b.1 <= db,
        b.0 != 0,
    ensures
        -(na * db) <= pair_div(a, b).0 <= na * db,
        1 <= pair_div(a, b).1 <= da * nb,
{
}

/// Bounds of a difference of bounded pairs, over whichever denominator
/// the subtraction keeps.
proof fn lemma_sub_c_bnd(a: (int, int), b: (int, int), nn: int, dd: int)
    requires
        0 <= nn,
        1 <= dd,
        -nn <= a.0 <= nn,
        1 <= a.1 <= dd,
        -nn <= b.0 <= nn,
        1 <= b.1 <= dd,
    ensures
        -(nn * dd + nn * dd) <= pair_sub_c(a, b).0 <= nn * dd + nn * dd,
        1 <= pair_sub_c(a, b).1 <= dd * dd,
{
    if a.1 == b.1 {
        assert(-(nn * dd + nn * dd) <= a.0 - b.0 <= nn * dd + nn * dd && a.1 <= dd * dd)
            by (nonlinear_arith)
            requires
                dd >= 1,
                nn >= 0,
                -nn <= a.0 <= nn,
                -nn <= b.0 <= nn,
                1 <= a.1 <= dd,
        ;
    } else {
        lemma_bnd_addsub(a, b, nn, dd, nn, dd);
    }
}

/// A dot product of bounded vectors stays in range, with bounds on the
/// result, provided the worst-case numerator and denominator fit.
proof fn lemma_bnd_dot(a: Triple, b: Triple, na: int, da: int, nb: int, db: int)
    requires
        0 <= na,
        0 <= nb,
        1 <= da,
        1 <= db,
        3 * ((na * nb) * ((da * db) * (da * db))) <= i64::MAX as int,
        ((da * db) * (da * db)) * (da * db) <= i64::MAX as int,
        -na <= a.0.0 <= na && 1 <= a.0.1 <= da,
        -na <= a.1.0 <= na && 1 <= a.1.1 <= da,
        -na <= a.2.0 <= na && 1 <= a.2.1 <= da,
        -nb <= b.0.0 <= nb && 1 <= b.0.1 <= db,
        -nb <= b.1.0 <= nb && 1 <= b.1.1 <= db,
        -nb <= b.2.0 <= nb && 1 <= b.2.1 <= db,
    ensures
        crate::linalg::dot_fits(a, b),
        -(3 * ((na * nb) * ((da * db) * (da * db)))) <= trip_dot(a, b).0 <= 3 * ((na * nb) * ((
        da * db) * (da * db))),
        1 <= trip_dot(a, b).1 <= ((da * db) * (da * db)) * (da * db),
{
    let nm = na * nb;
    let dm = da * db;
    lemma_bnd_mul(a.0, b.0, na, da, nb, db);
    lemma_bnd_mul(a.1, b.1, na, da, nb, db);
    lemma_bnd_mul(a.2, b.2, na, da, nb, db);
    let m0 = pair_mul(a.0, b.0);
    let m1 = pair_mul(a.1, b.1);
    let m2 = pair_mul(a.2, b.2);
    lemma_bnd_addsub(m0, m1, nm, dm, nm, dm);
    let s1 = pair_add(m0, m1);
    assert(nm * dm + nm * dm == 2 * nm * dm && 2 * nm * dm >= 0 && dm * dm >= 1)
        by (nonlinear_arith)
        requires
            nm >= 0,
            dm >= 1,
    ;
    lemma_bnd_addsub(s1, m2, 2 * nm * dm, dm * dm, nm, dm);
    assert((2 * nm * dm) * dm + nm * (dm * dm) == 3 * (nm * (dm * dm))) by (nonlinear_arith);
    assert(nm <= 3 * (nm * (dm * dm)) && dm <= (dm * dm) * dm && 2 * nm * dm <= 3 * (nm * (dm
        * dm)) && dm * dm <= (dm * dm) * dm && 3 * (nm * (dm * dm)) == 3 * ((na * nb) * ((da
        * db) * (da * db))) && (dm * dm) * dm == ((da * db) * (da * db)) * (da * db))
        by (nonlinear_arith)
        requires
            nm >= 0,
            dm >= 1,
            nm == na * nb,
            dm == da * db,
    ;
}

/// A geometric computation left the machine range of the exact rational
/// coordinates; no approximate answer is invented in its place.
#[derive(Clone, Copy, Debug, PartialEq, Eq)]
pub struct Overflow;

/// One generated facet: the four projected corners in the order
/// bottom-left, bottom-right, top-left, top-right, the (unnormalized)
/// normal of the spanned plane, and the name and sign of every axis held
/// fixed while building it.
#[derive(Clone, Debug)]
pub struct Face {
    pub points: [Vec3; 4],
    pub normal: Vec3,
    pub dims: Vec<(String, bool)>,
}

impl Face {
    pub open spec fn wf(&self) -> bool {
        &&& forall|i: int| 0 <= i < 4 ==> (#[trigger] self.points@[i]).wf()
        &&& self.normal.wf()
    }

    /// Dot product of a ray direction with the facet normal; the facet's
    /// supporting plane is hit only where this is non-zero.
    pub open spec fn denom_of(&self, dir: Triple) -> (int, int) {
        trip_dot(dir, self.normal@)
    }

    /// The ray parameter of the supporting-plane intersection.
    pub open spec fn t_of(&self, origin: Triple, dir: Triple) -> (int, int) {
        pair_div(
            trip_dot(trip_sub(self.points@[0]@, origin), self.normal@),
            self.denom_of(dir),
        )
    }

    /// Where the ray meets the supporting plane.
    pub open spec fn hit_of(&self, origin: Triple, dir: Triple) -> Triple {
        trip_add(origin, trip_scale(self.t_of(origin, dir), dir))
    }

    /// The inside-out test for one directed boundary edge.
    pub open spec fn edge_inside(v0: Triple, v1: Triple, q: Triple, n: Triple) -> bool {
        pair_le((0int, 1int), trip_dot(trip_cross(trip_sub(v1, v0), trip_sub(q, v0)), n))
    }

    /// Whether `q` lies inside all four boundary edges of the facet.
    pub open spec fn contains_point(&self, q: Triple) -> bool {
        &&& Face::edge_inside(self.points@[0]@, self.points@[1]@, q, self.normal@)
        &&& Face::edge_inside(self.points@[1]@, self.points@[3]@, q, self.normal@)
        &&& Face::edge_inside(self.points@[3]@, self.points@[2]@, q, self.normal@)
        &&& Face::edge_inside(self.points@[2]@, self.points@[0]@, q, self.normal@)
    }

    /// Whether the ray picks this facet: the plane is not parallel, the
    /// intersection lies on the forward side under the `t < 0` convention
    /// (the direction points from the scene back toward the eye), and the
    /// intersection point passes all four inside-out tests.
    pub open spec fn hits(&self, origin: Triple, dir: Triple) -> bool {
        &&& self.denom_of(dir).0 != 0
        &&& pair_lt(self.t_of(origin, dir), (0int, 1int))
        &&& self.contains_point(self.hit_of(origin, dir))
    }

    fn inside_out(v0: &Vec3, v1: &Vec3, q: &Vec3, n: &Vec3) -> (r: Option<bool>)
        requires
            v0.wf(),
            v1.wf(),
            q.wf(),
            n.wf(),
        ensures
            r matches Some(b) ==> b == Face::edge_inside(v0@, v1@, q@, n@),
            small_trip(v0@) && small_trip(v1@) && small_trip(n@) && hit_range(q@) ==> r is Some,
    {
        proof {
            if small_trip(v0@) && small_trip(v1@) && small_trip(n@) && hit_range(q@) {
                lemma_bnd_addsub(v1@.0, v0@.0, 8, 1, 8, 1);
                lemma_bnd_addsub(v1@.1, v0@.1, 8, 1, 8, 1);
                lemma_bnd_addsub(v1@.2, v0@.2, 8, 1, 8, 1);
                lemma_bnd_addsub(q@.0, v0@.0, 4608, 192, 8, 1);
                lemma_bnd_addsub(q@.1, v0@.1, 4608, 192, 8, 1);
                lemma_bnd_addsub(q@.2, v0@.2, 4608, 192, 8, 1);
                let es = trip_sub(v1@, v0@);
                let ws = trip_sub(q@, v0@);
                lemma_bnd_mul(es.1, ws.2, 16, 1, 6144, 192);
                lemma_bnd_mul(es.2, ws.1, 16, 1, 6144, 192);
                lemma_bnd_addsub(pair_mul(es.1, ws.2), pair_mul(es.2, ws.1), 98304, 192, 98304, 192);
                lemma_bnd_mul(es.2, ws.0, 16, 1, 6144, 192);
                lemma_bnd_mul(es.0, ws.2, 16, 1, 6144, 192);
                lemma_bnd_addsub(pair_mul(es.2, ws.0), pair_mul(es.0, ws.2), 98304, 192, 98304, 192);
                lemma_bnd_mul(es.0, ws.1, 16, 1, 6144, 192);
                lemma_bnd_mul(es.1, ws.0, 16, 1, 6144, 192);
                lemma_bnd_addsub(pair_mul(es.0, ws.1), pair_mul(es.1, ws.0), 98304, 192, 98304, 192);
                assert(crate::linalg::cross_fits(es, ws));
                lemma_trip_op_wf(v1@, v0@);
                lemma_trip_op_wf(q@, v0@);
                crate::linalg::lemma_cross_fits_c(es, ws);
                lemma_sub_c_bnd(pair_mul(es.1, ws.2), pair_mul(es.2, ws.1), 98304, 192);
                lemma_sub_c_bnd(pair_mul(es.2, ws.0), pair_mul(es.0, ws.2), 98304, 192);
                lemma_sub_c_bnd(pair_mul(es.0, ws.1), pair_mul(es.1, ws.0), 98304, 192);
                lemma_bnd_dot(crate::linalg::trip_cross_c(es, ws), n@, 37748736, 36864, 8, 1);
            }
        }
        let e = match v1.sub(v0) {
            Some(e) => e,
            None => return None,
        };
        let w = match q.sub(v0) {
            Some(w) => w,
            None => return None,
        };
        let c = match e.cross(&w) {
            Some(c) => c,
            None => return None,
        };
        let d = match c.dot(n) {
            Some(d) => d,
            None => return None,
        };
        let zero = Rat::zero();
        let r: bool = zero.le(&d);
        proof {
            let se = trip_sub(v1@, v0@);
            let sw = trip_sub(q@, v0@);
            let sc = trip_cross(se, sw);
            let sd = trip_dot(sc, n@);
            lemma_trip_op_wf(v1@, v0@);
            lemma_trip_op_wf(q@, v0@);
            lemma_trip_op_wf(se, sw);
            lemma_trip_op_wf(e@, w@);
            lemma_trip_cong(e@, w@, se, sw);
            lemma_trip_eqv_trans(c@, trip_cross(e@, w@), sc);
            lemma_trip_op_wf(c@, n@);
            lemma_trip_op_wf(sc, n@);
            lemma_trip_cong(c@, n@, sc, n@);
            lemma_eqv_trans(d@, trip_dot(c@, n@), sd);
            lemma_order_cong((0int, 1int), d@, (0int, 1int), sd);
        }
        Some(r)
    }

    /// Intersect a ray with this facet.
    ///
    /// `Ok(Some(p))` comes exactly when the facet is hit, with `p` the
    /// intersection point; a parallel ray, a hit outside the quad, or a
    /// hit behind the ray yields `Ok(None)`.  `Err(Overflow)` reports
    /// that the exact arithmetic left the machine range.
    pub fn intersect(&self, origin: &Vec3, dir: &Vec3) -> (r: Result<Option<Vec3>, Overflow>)
        requires
            self.wf(),
            origin.wf(),
            dir.wf(),
        ensures
            r matches Ok(h) ==> ((h is Some) <==> self.hits(origin@, dir@)),
            r matches Ok(h) ==> (h matches Some(p) ==> p.wf() && trip_eqv(
                p@,
                self.hit_of(origin@, dir@),
            )),
            crate::linalg::dot_fits(dir@, self.normal@) && self.denom_of(dir@).0 == 0
                ==> (r matches Ok(h) && h is None),
            small_face(*self) && small_trip(origin@) && small_trip(dir@) ==> r is Ok,
            small_face(*self) && small_trip(origin@) && small_trip(dir@) ==> (r matches Ok(h)
                ==> (h matches Some(p) ==> hit_range(p@))),
    {
        let ghost sdenom = self.denom_of(dir@);
        proof {
            if small_face(*self) && small_trip(origin@) && small_trip(dir@) {
                lemma_bnd_dot(dir@, self.normal@, 8, 1, 8, 1);
            }
        }
        // Compute the intersection point on the supporting plane of the face.
        let angle = match dir.dot(&self.normal) {
            Some(a) => a,
            None => return Err(Overflow),
        };
        proof {
            lemma_trip_op_wf(dir@, self.normal@);
        }
        if angle.num() == 0 {
            proof {
                lemma_eqv_zero(angle@);
                lemma_eqv_zero(sdenom);
                lemma_order_cong(angle@, (0int, 1int), sdenom, (0int, 1int));
            }
            return Ok(None);
        }
        proof {
            lemma_eqv_zero(angle@);
            lemma_eqv_zero(sdenom);
            lemma_order_cong(angle@, (0int, 1int), sdenom, (0int, 1int));
            assert(sdenom.0 != 0);
        }
        proof {
            if small_face(*self) && small_trip(origin@) && small_trip(dir@) {
                lemma_bnd_addsub(self.points@[0]@.0, origin@.0, 8, 1, 8, 1);
                lemma_bnd_addsub(self.points@[0]@.1, origin@.1, 8, 1, 8, 1);
                lemma_bnd_addsub(self.points@[0]@.2, origin@.2, 8, 1, 8, 1);
            }
        }
        let diff = match self.points[0].sub(origin) {
            Some(d) => d,
            None => return Err(Overflow),
        };
        proof {
            if small_face(*self) && small_trip(origin@) && small_trip(dir@) {
                lemma_bnd_dot(diff@, self.normal@, 16, 1, 8, 1);
            }
        }
        let dist = match diff.dot(&self.normal) {
            Some(d) => d,
            None => return Err(Overflow),
        };
        let ghost sdist = trip_dot(trip_sub(self.points@[0]@, origin@), self.normal@);
        proof {
            lemma_trip_op_wf(self.points@[0]@, origin@);
            lemma_trip_op_wf(trip_sub(self.points@[0]@, origin@), self.normal@);
            lemma_trip_op_wf(diff@, self.normal@);
            lemma_trip_cong(diff@, self.normal@, trip_sub(self.points@[0]@, origin@), self.normal@);
            lemma_eqv_trans(dist@, trip_dot(diff@, self.normal@), sdist);
        }
        proof {
            if small_face(*self) && small_trip(origin@) && small_trip(dir@) {
                lemma_bnd_div(dist@, angle@, 384, 1, 192, 1);
                assert(pair_fits(pair_div(dist@, angle@)));
            }
        }
        let t = match dist.div(&angle) {
            Some(t) => t,
            None => return Err(Overflow),
        };
        let ghost st = self.t_of(origin@, dir@);
        proof {
            lemma_pair_op_wf(sdist, sdenom);
            lemma_pair_op_wf(dist@, angle@);
            lemma_div_cong(dist@, angle@, sdist, sdenom);
            lemma_eqv_trans(t@, pair_div(dist@, angle@), st);
        }
        proof {
            if small_face(*self) && small_trip(origin@) && small_trip(dir@) {
                lemma_bnd_mul(t@, dir@.0, 384, 192, 8, 1);
                lemma_bnd_mul(t@, dir@.1, 384, 192, 8, 1);
                lemma_bnd_mul(t@, dir@.2, 384, 192, 8, 1);
            }
        }
        let sc = match dir.scale(&t) {
            Some(s) => s,
            None => return Err(Overflow),
        };
        proof {
            if small_face(*self) && small_trip(origin@) && small_trip(dir@) {
                lemma_bnd_addsub(origin@.0, sc@.0, 8, 1, 3072, 192);
                lemma_bnd_addsub(origin@.1, sc@.1, 8, 1, 3072, 192);
                lemma_bnd_addsub(origin@.2, sc@.2, 8, 1, 3072, 192);
            }
        }
        let isect = match origin.add(&sc) {
            Some(p) => p,
            None => return Err(Overflow),
        };
        let ghost shit = self.hit_of(origin@, dir@);
        proof {
            lemma_pair_op_wf(sdist, sdenom);
            lemma_trip_scale_wf(t@, dir@);
            lemma_trip_scale_wf(st, dir@);
            lemma_trip_scale_cong(t@, st, dir@, dir@);
            lemma_trip_eqv_trans(sc@, trip_scale(t@, dir@), trip_scale(st, dir@));
            lemma_trip_op_wf(origin@, sc@);
            lemma_trip_op_wf(origin@, trip_scale(st, dir@));
            lemma_trip_cong(origin@, sc@, origin@, trip_scale(st, dir@));
            lemma_trip_eqv_trans(isect@, trip_add(origin@, sc@), shit);
        }
        // We just generalize the standard inside-out test for a triangle here.
        // We also check that t < 0 to ignore any intersections behind us.
        proof {
            if small_face(*self) && small_trip(origin@) && small_trip(dir@) {
                assert(hit_range(isect@));
            }
        }
        let i1 = match Face::inside_out(&self.points[0], &self.points[1], &isect, &self.normal) {
            Some(b) => b,
            None => return Err(Overflow),
        };
        let i2 = match Face::inside_out(&self.points[1], &self.points[3], &isect, &self.normal) {
            Some(b) => b,
            None => return Err(Overflow),
        };
        let i3 = match Face::inside_out(&self.points[3], &self.points[2], &isect, &self.normal) {
            Some(b) => b,
            None => return Err(Overflow),
        };
        let i4 = match Face::inside_out(&self.points[2], &self.points[0], &isect, &self.normal) {
            Some(b) => b,
            None => return Err(Overflow),
        };
        let zero = Rat::zero();
        let forward: bool = t.lt(&zero);
        proof {
            lemma_trip_op_wf(origin@, trip_scale(st, dir@));
            lemma_edge_inside_cong(self.points@[0]@, self.points@[1]@, isect@, shit, self.normal@);
            lemma_edge_inside_cong(self.points@[1]@, self.points@[3]@, isect@, shit, self.normal@);
            lemma_edge_inside_cong(self.points@[3]@, self.points@[2]@, isect@, shit, self.normal@);
            lemma_edge_inside_cong(self.points@[2]@, self.points@[0]@, isect@, shit, self.normal@);
            lemma_order_cong(t@, (0int, 1int), st, (0int, 1int));
        }
        if i1 && i2 && i3 && i4 && forward {
            Ok(Some(isect))
        } else {
            Ok(None)
        }
    }
}

/// `2^k`.
pub open spec fn pow2(k: nat) -> nat
    decreases k,
{
    if k == 0 {
        1nat
    } else {
        2 * pow2((k - 1) as nat)
    }
}

/// How many axis pairs `(e0, e1)` with `e0 < e1 < n` have `e0 < d0`.
pub open spec fn tri_before(d0: int, n: int) -> int
    decreases d0,
{
    if d0 <= 0 {
        0int
    } else {
        tri_before(d0 - 1, n) + (n - d0)
    }
}

/// The position of the pair `(d0, d1)` in the enumeration order of axis
/// pairs: all pairs with a smaller first axis, then those with the same
/// first axis and a smaller second.
pub open spec fn pair_rank(d0: int, d1: int, n: int) -> int {
    tri_before(d0, n) + (d1 - d0 - 1)
}

/// The position of the facet generated for axes `(d0, d1)` at placement
/// `loc` in the generation order.
pub open spec fn face_index(d0: int, d1: int, loc: int, n: int) -> int {
    pair_rank(d0, d1, n) * pow2((n - 2) as nat) + loc
}

/// A legal facet choice: two ordered free axes and a placement pattern
/// for the remaining `n - 2` axes.
pub open spec fn valid_choice(d0: int, d1: int, loc: int, n: int) -> bool {
    0 <= d0 < d1 < n && 0 <= loc < pow2((n - 2) as nat)
}

/// How many facets `build`ing an `n`-cube produces.
pub open spec fn num_faces(n: int) -> int {
    tri_before(n, n) * pow2((n - 2) as nat)
}

/// The vertex pattern a placement expands to: the placement bits with a
/// zero inserted at each free axis.
pub open spec fn base_pattern(loc: u32, d0: u32, d1: u32) -> u32 {
    insert_zero_bit(insert_zero_bit(loc, d0), d1)
}

/// The vertex pattern of corner `c` of a facet: the base pattern with
/// the free-axis bits chosen as bottom-left, bottom-right, top-left,
/// top-right.
pub open spec fn corner_bits(base: u32, c: int, d0: u32, d1: u32) -> u32 {
    let b = if c == 1 || c == 3 {
        base | (1u32 << d0)
    } else {
        base
    };
    if c == 2 || c == 3 {
        b | (1u32 << d1)
    } else {
        b
    }
}

/// What `Cube::new` promises of the facet generated for `(d0, d1, loc)`:
/// its fixed-axis list names every skipped axis with the sign the base
/// pattern gives it, each corner is the projection of the corner's
/// vertex pattern, and the normal is the cross product of the projected
/// right edge and up edge.
pub open spec fn face_matches(
    f: Face,
    names: Seq<Seq<char>>,
    size: (int, int),
    d0: int,
    d1: int,
    loc: int,
) -> bool {
    let n = names.len() as int;
    let base = base_pattern(loc as u32, d0 as u32, d1 as u32);
    &&& f.wf()
    &&& f.dims@.len() == n - 2
    &&& (forall|j: int|
        0 <= j < n - 2 ==> (#[trigger] f.dims@[j]).0@ == names[unskip(j, d0, d1)]
            && f.dims@[j].1 == pair_lt((0int, 1int), signs_of(base, n, size)[unskip(j, d0, d1)]))
    &&& (forall|c: int|
        0 <= c < 4 ==> {
            let cs = collapse_state(pad3(signs_of(corner_bits(base, c, d0 as u32, d1 as u32), n, size)), 4);
            &&& passes_defined(pad3(signs_of(corner_bits(base, c, d0 as u32, d1 as u32), n, size)), 4)
            &&& trip_eqv((#[trigger] f.points@[c])@, (cs[0], cs[1], cs[2]))
        })
    &&& trip_eqv(
        f.normal@,
        trip_cross(
            trip_sub(f.points@[1]@, f.points@[0]@),
            trip_sub(f.points@[2]@, f.points@[0]@),
        ),
    )
}

/// A left shift computes a power of two.
pub proof fn lemma_shl_pow2(k: u32)
    requires
        k <= 30,
    ensures
        (1u32 << k) as int == pow2(k as nat),
    decreases k,
{
    if k == 0 {
        assert(1u32 << 0u32 == 1u32) by (bit_vector);
    } else {
        lemma_shl_pow2((k - 1) as u32);
        assert((1u32 << k) == (1u32 << ((k - 1) as u32)) * 2) by (bit_vector)
            requires
                1 <= k <= 30,
        ;
    }
}

/// Project the point a vertex pattern stands for.  With at most three
/// axes the projection is the identity, so it always succeeds and keeps
/// each stored coordinate exactly.
fn corner_point(cbits: u32, dim: u32, size: Rat) -> (r: Option<Vec3>)
    requires
        size.wf(),
        dim <= 30,
    ensures
        r matches Some(p) ==> ({
            let cs = collapse_state(pad3(signs_of(cbits, dim as int, size@)), 4);
            &&& p.wf()
            &&& passes_defined(pad3(signs_of(cbits, dim as int, size@)), 4)
            &&& trip_eqv(p@, (cs[0], cs[1], cs[2]))
        }),
        dim <= 3 ==> r is Some,
        crate::linalg::project_fits(pad3(signs_of(cbits, dim as int, size@)), 4) ==> r is Some,
        crate::linalg::project_fits(pad3(signs_of(cbits, dim as int, size@)), 4) ==> (r matches
            Some(p) ==> {
            let cs = collapse_state(pad3(signs_of(cbits, dim as int, size@)), 4);
            &&& p.x@ == cs[0]
            &&& p.y@ == cs[1]
            &&& p.z@ == cs[2]
        }),
        dim <= 3 ==> (r matches Some(p) ==> {
            &&& (dim >= 1 ==> p.x@ == signs_of(cbits, dim as int, size@)[0])
            &&& (dim < 1 ==> p.x@ == (0int, 1int))
            &&& (dim >= 2 ==> p.y@ == signs_of(cbits, dim as int, size@)[1])
            &&& (dim < 2 ==> p.y@ == (0int, 1int))
            &&& (dim == 3 ==> p.z@ == signs_of(cbits, dim as int, size@)[2])
            &&& (dim < 3 ==> p.z@ == (0int, 1int))
        }),
{
    let vc = point(cbits, dim, size);
    proof {
        assert(vc@.map_values(|q: Rat| q@) =~= signs_of(cbits, dim as int, size@));
    }
    project(&vc)
}

/// The generated facet set, in generation order.
/// A corner of a unit cube with at most three axes has coordinates
/// whose numerators are signs over denominator one.
proof fn lemma_corner_unit(p: Vec3, cbits: u32, n: int)
    requires
        2 <= n <= 3,
        p.x@ == signs_of(cbits, n, (1int, 1int))[0],
        p.y@ == signs_of(cbits, n, (1int, 1int))[1],
        n == 3 ==> p.z@ == signs_of(cbits, n, (1int, 1int))[2],
        n < 3 ==> p.z@ == (0int, 1int),
    ensures
        small_trip(p@),
        p.x@.1 == 1 && -1 <= p.x@.0 <= 1,
        p.y@.1 == 1 && -1 <= p.y@.0 <= 1,
        p.z@.1 == 1 && -1 <= p.z@.0 <= 1,
{
}

/// The cross product of two sign-difference vectors is a small integer
/// vector.
proof fn lemma_unit_normal_small(h: Triple, v: Triple)
    requires
        h.0.1 == 1 && -2 <= h.0.0 <= 2,
        h.1.1 == 1 && -2 <= h.1.0 <= 2,
        h.2.1 == 1 && -2 <= h.2.0 <= 2,
        v.0.1 == 1 && -2 <= v.0.0 <= 2,
        v.1.1 == 1 && -2 <= v.1.0 <= 2,
        v.2.1 == 1 && -2 <= v.2.0 <= 2,
    ensures
        small_trip(crate::linalg::trip_cross_c(h, v)),
{
    lemma_bnd_mul(h.1, v.2, 2, 1, 2, 1);
    lemma_bnd_mul(h.2, v.1, 2, 1, 2, 1);
    lemma_bnd_mul(h.2, v.0, 2, 1, 2, 1);
    lemma_bnd_mul(h.0, v.2, 2, 1, 2, 1);
    lemma_bnd_mul(h.0, v.1, 2, 1, 2, 1);
    lemma_bnd_mul(h.1, v.0, 2, 1, 2, 1);
}

/// For a unit 4-cube every projection pass computes in range, and each
/// projected coordinate is `+-408` over `985` times the depth divisor.
proof fn lemma_unit4_fits(bits: u32)
    ensures
        crate::linalg::project_fits(pad3(signs_of(bits, 4, (1int, 1int))), 4),
        forall|j: int|
            0 <= j < 3 ==> (#[trigger] collapse_state(
                pad3(signs_of(bits, 4, (1int, 1int))),
                4,
            )[j]).1 == 985 * (if get_bit(bits, 3) {
                4int
            } else {
                2int
            }) && (collapse_state(pad3(signs_of(bits, 4, (1int, 1int))), 4)[j].0 == 408
                || collapse_state(pad3(signs_of(bits, 4, (1int, 1int))), 4)[j].0 == -408),
{
    let s = signs_of(bits, 4, (1int, 1int));
    let pv = pad3(s);
    assert(pv == s);
    assert(collapse_state(pv, 5) == pv);
    let divisor = pair_add(pv[3], crate::linalg::three_pair());
    if get_bit(bits, 3) {
        assert(pv[3] == (1int, 1int));
        assert(divisor == (4int, 1int));
    } else {
        assert(pv[3] == (-1int, 1int));
        assert(divisor == (2int, 1int));
    }
    let f = pair_div(crate::linalg::fov_scale_pair(), divisor);
    assert(f == (408int, 985int * divisor.0));
    assert forall|j: int| 0 <= j < pv.len() implies pair_fits(
        pair_mul(f, #[trigger] pv[j]),
    ) by {
        assert(pv[j] == (1int, 1int) || pv[j] == (-1int, 1int));
    }
    assert(crate::linalg::pass_fits(pv, 4));
    assert(crate::linalg::project_fits(pv, 5));
    assert(collapse_state(pv, 4) == crate::linalg::scale_pass(pv, 4));
    assert forall|j: int|
        0 <= j < 3 implies (#[trigger] collapse_state(pv, 4)[j]).1 == 985 * (if get_bit(
        bits,
        3,
    ) {
        4int
    } else {
        2int
    }) && (collapse_state(pv, 4)[j].0 == 408 || collapse_state(pv, 4)[j].0 == -408) by {
        assert(crate::linalg::scale_pass(pv, 4)[j] == pair_mul(f, pv[j]));
        assert(pv[j] == (1int, 1int) || pv[j] == (-1int, 1int));
    }
}

/// A corner of a cube with at most three axes and a small integer size
/// has small integer coordinates.
proof fn lemma_corner_small(p: Vec3, cbits: u32, n: int, size: (int, int))
    requires
        2 <= n <= 3,
        size.1 == 1,
        -32768 <= size.0 <= 32768,
        p.x@ == signs_of(cbits, n, size)[0],
        p.y@ == signs_of(cbits, n, size)[1],
        n == 3 ==> p.z@ == signs_of(cbits, n, size)[2],
        n < 3 ==> p.z@ == (0int, 1int),
    ensures
        p.x@.1 == 1 && -32768 <= p.x@.0 <= 32768,
        p.y@.1 == 1 && -32768 <= p.y@.0 <= 32768,
        p.z@.1 == 1 && -32768 <= p.z@.0 <= 32768,
{
}

/// Differences of small integer coordinates fit without reduction.
proof fn lemma_sub_small(a: (int, int), b: (int, int))
    by (nonlinear_arith)
    requires
        a.1 == 1,
        b.1 == 1,
        -32768 <= a.0 <= 32768,
        -32768 <= b.0 <= 32768,
    ensures
        pair_fits(pair_sub(a, b)),
        pair_sub(a, b).1 == 1,
        -65536 <= pair_sub(a, b).0 <= 65536,
{
}

/// A cross product of small integer vectors fits without reduction.
proof fn lemma_cross_small(a: Triple, b: Triple)
    requires
        a.0.1 == 1 && a.1.1 == 1 && a.2.1 == 1,
        b.0.1 == 1 && b.1.1 == 1 && b.2.1 == 1,
        -65536 <= a.0.0 <= 65536 && -65536 <= a.1.0 <= 65536 && -65536 <= a.2.0 <= 65536,
        -65536 <= b.0.0 <= 65536 && -65536 <= b.1.0 <= 65536 && -65536 <= b.2.0 <= 65536,
    ensures
        crate::linalg::cross_fits(a, b),
{
    lemma_mul_small(a.1, b.2);
    lemma_mul_small(a.2, b.1);
    lemma_sub_prod_small(pair_mul(a.1, b.2), pair_mul(a.2, b.1));
    lemma_mul_small(a.2, b.0);
    lemma_mul_small(a.0, b.2);
    lemma_sub_prod_small(pair_mul(a.2, b.0), pair_mul(a.0, b.2));
    lemma_mul_small(a.0, b.1);
    lemma_mul_small(a.1, b.0);
    lemma_sub_prod_small(pair_mul(a.0, b.1), pair_mul(a.1, b.0));
}

/// Products of coordinates bounded by `2^16` fit without reduction.
proof fn lemma_mul_small(a: (int, int), b: (int, int))
    by (nonlinear_arith)
    requires
        a.1 == 1,
        b.1 == 1,
        -65536 <= a.0 <= 65536,
        -65536 <= b.0 <= 65536,
    ensures
        pair_fits(pair_mul(a, b)),
        pair_mul(a, b).1 == 1,
        -0x100000000 <= pair_mul(a, b).0 <= 0x100000000,
{
}

/// Differences of such products fit without reduction.
proof fn lemma_sub_prod_small(a: (int, int), b: (int, int))
    by (nonlinear_arith)
    requires
        a.1 == 1,
        b.1 == 1,
        -0x100000000 <= a.0 <= 0x100000000,
        -0x100000000 <= b.0 <= 0x100000000,
    ensures
        pair_fits(pair_sub(a, b)),
{
}

/// Build the facet for one choice of free axes and placement: base
/// point, fixed-axis list, four projected corners and the normal.
#[verifier::rlimit(100)]
fn build_face(dim_names: &Vec<String>, size: Rat, d0: u32, d1: u32, loc: u32) -> (r: Option<Face>)
    requires
        2 <= dim_names@.len() <= 30,
        size.wf(),
        (d0 as int) < (d1 as int) < dim_names@.len(),
    ensures
        r matches Some(f) ==> face_matches(
            f,
            dim_names@.map_values(|s: String| s@),
            size@,
            d0 as int,
            d1 as int,
            loc as int,
        ),
        dim_names@.len() <= 3 && size@.1 == 1 && -32768 <= size@.0 <= 32768 ==> r is Some,
        dim_names@.len() <= 4 && size@ == (1int, 1int) ==> r is Some,
        dim_names@.len() <= 3 && size@ == (1int, 1int) ==> (r matches Some(f) ==> small_face(f)),
{
    let ghost n = dim_names@.len() as int;
    let ghost names = dim_names@.map_values(|s: String| s@);
    let dim: u32 = dim_names.len() as u32;
        let base: u32 = insert_bit(insert_bit(loc, d0), d1);
        let v: Vec<Rat> = point(base, dim, size);
        let dims: Vec<(String, bool)> = dims_from_point(dim_names, &v, d0, d1);
        let cb_br: u32 = base | (1u32 << d0);
        let cb_tl: u32 = base | (1u32 << d1);
        let cb_tr: u32 = cb_br | (1u32 << d1);
        proof {
            if n == 4 && size@ == (1int, 1int) {
                lemma_unit4_fits(base);
                lemma_unit4_fits(cb_br);
                lemma_unit4_fits(cb_tl);
                lemma_unit4_fits(cb_tr);
            }
        }
        let bottom_left = match corner_point(base, dim, size) {
            Some(p) => p,
            None => return None,
        };
        let bottom_right = match corner_point(cb_br, dim, size) {
            Some(p) => p,
            None => return None,
        };
        let top_left = match corner_point(cb_tl, dim, size) {
            Some(p) => p,
            None => return None,
        };
        let top_right = match corner_point(cb_tr, dim, size) {
            Some(p) => p,
            None => return None,
        };
        proof {
            if n <= 3 && size@.1 == 1 && -32768 <= size@.0 <= 32768 {
                lemma_corner_small(bottom_left, base, n, size@);
                lemma_corner_small(bottom_right, cb_br, n, size@);
                lemma_corner_small(top_left, cb_tl, n, size@);
                lemma_sub_small(bottom_right@.0, bottom_left@.0);
                lemma_sub_small(bottom_right@.1, bottom_left@.1);
                lemma_sub_small(bottom_right@.2, bottom_left@.2);
                lemma_sub_small(top_left@.0, bottom_left@.0);
                lemma_sub_small(top_left@.1, bottom_left@.1);
                lemma_sub_small(top_left@.2, bottom_left@.2);
            }
            if n == 4 && size@ == (1int, 1int) {
                lemma_bnd_addsub(bottom_right@.0, bottom_left@.0, 408, 3940, 408, 3940);
                lemma_bnd_addsub(bottom_right@.1, bottom_left@.1, 408, 3940, 408, 3940);
                lemma_bnd_addsub(bottom_right@.2, bottom_left@.2, 408, 3940, 408, 3940);
                lemma_bnd_addsub(top_left@.0, bottom_left@.0, 408, 3940, 408, 3940);
                lemma_bnd_addsub(top_left@.1, bottom_left@.1, 408, 3940, 408, 3940);
                lemma_bnd_addsub(top_left@.2, bottom_left@.2, 408, 3940, 408, 3940);
            }
        }
        let horiz = match bottom_right.sub(&bottom_left) {
            Some(h) => h,
            None => return None,
        };
        let vert = match top_left.sub(&bottom_left) {
            Some(v) => v,
            None => return None,
        };
        proof {
            if n <= 3 && size@.1 == 1 && -32768 <= size@.0 <= 32768 {
                lemma_cross_small(horiz@, vert@);
                crate::linalg::lemma_cross_fits_c(horiz@, vert@);
            }
            if n == 4 && size@ == (1int, 1int) {
                lemma_bnd_mul(horiz@.1, vert@.2, 3215040, 15523600, 3215040, 15523600);
                lemma_bnd_mul(horiz@.2, vert@.1, 3215040, 15523600, 3215040, 15523600);
                lemma_bnd_mul(horiz@.2, vert@.0, 3215040, 15523600, 3215040, 15523600);
                lemma_bnd_mul(horiz@.0, vert@.2, 3215040, 15523600, 3215040, 15523600);
                lemma_bnd_mul(horiz@.0, vert@.1, 3215040, 15523600, 3215040, 15523600);
                lemma_bnd_mul(horiz@.1, vert@.0, 3215040, 15523600, 3215040, 15523600);
                assert(horiz@.0.1 == horiz@.1.1 && horiz@.1.1 == horiz@.2.1);
                assert(vert@.0.1 == vert@.1.1 && vert@.1.1 == vert@.2.1);
                assert(crate::linalg::cross_fits_c(horiz@, vert@));
            }
        }
        let normal = match horiz.cross(&vert) {
            Some(nr) => nr,
            None => return None,
        };
        proof {
            lemma_trip_op_wf(bottom_right@, bottom_left@);
            lemma_trip_op_wf(top_left@, bottom_left@);
            lemma_trip_op_wf(horiz@, vert@);
            lemma_trip_op_wf(
                trip_sub(bottom_right@, bottom_left@),
                trip_sub(top_left@, bottom_left@),
            );
            lemma_trip_cong(
                horiz@,
                vert@,
                trip_sub(bottom_right@, bottom_left@),
                trip_sub(top_left@, bottom_left@),
            );
            lemma_trip_eqv_trans(
                normal@,
                trip_cross(horiz@, vert@),
                trip_cross(
                    trip_sub(bottom_right@, bottom_left@),
                    trip_sub(top_left@, bottom_left@),
                ),
            );
        }
        let face = Face {
            points: [bottom_left, bottom_right, top_left, top_right],
            normal,
            dims,
        };
        proof {
            if n <= 3 && size@ == (1int, 1int) {
                lemma_corner_unit(bottom_left, base, n);
                lemma_corner_unit(bottom_right, cb_br, n);
                lemma_corner_unit(top_left, cb_tl, n);
                lemma_corner_unit(top_right, cb_tr, n);
                lemma_bnd_addsub(bottom_right@.0, bottom_left@.0, 1, 1, 1, 1);
                lemma_bnd_addsub(bottom_right@.1, bottom_left@.1, 1, 1, 1, 1);
                lemma_bnd_addsub(bottom_right@.2, bottom_left@.2, 1, 1, 1, 1);
                lemma_bnd_addsub(top_left@.0, bottom_left@.0, 1, 1, 1, 1);
                lemma_bnd_addsub(top_left@.1, bottom_left@.1, 1, 1, 1, 1);
                lemma_bnd_addsub(top_left@.2, bottom_left@.2, 1, 1, 1, 1);
                assert(horiz@ == trip_sub(bottom_right@, bottom_left@));
                assert(vert@ == trip_sub(top_left@, bottom_left@));
                lemma_unit_normal_small(horiz@, vert@);
                assert(normal@ == crate::linalg::trip_cross_c(horiz@, vert@));
                assert(small_face(face));
            }
            let base_s = base_pattern(loc as u32, d0 as u32, d1 as u32);
            assert(base == base_s);
            assert(face.points@[0] == bottom_left);
            assert(face.points@[1] == bottom_right);
            assert(face.points@[2] == top_left);
            assert(face.points@[3] == top_right);
            assert(corner_bits(base_s, 0, d0, d1) == base_s);
            assert(corner_bits(base_s, 1, d0, d1) == cb_br);
            assert(corner_bits(base_s, 2, d0, d1) == cb_tl);
            assert(corner_bits(base_s, 3, d0, d1) == cb_tr);
            assert forall|j: int| 0 <= j < n - 2 implies (#[trigger] face.dims@[j]).0@
                == names[unskip(j, d0 as int, d1 as int)] && face.dims@[j].1
                == pair_lt(
                (0int, 1int),
                signs_of(base_s, n, size@)[unskip(j, d0 as int, d1 as int)],
            ) by {
                let u = unskip(j, d0 as int, d1 as int);
                assert(0 <= u < n);
                assert(v@[u].wf());
                assert(v@[u]@ == signs_of(base_s, n, size@)[u]);
                assert(names[u] == dim_names@[u]@);
            }
            assert forall|c: int| 0 <= c < 4 implies ({
                let cs = collapse_state(
                    pad3(signs_of(corner_bits(base_s, c, d0, d1), n, size@)),
                    4,
                );
                &&& passes_defined(
                    pad3(signs_of(corner_bits(base_s, c, d0, d1), n, size@)),
                    4,
                )
                &&& trip_eqv((#[trigger] face.points@[c])@, (cs[0], cs[1], cs[2]))
            }) by {
                if c == 0 {
                    assert(corner_bits(base_s, c, d0, d1) == base_s);
                } else if c == 1 {
                    assert(corner_bits(base_s, c, d0, d1) == cb_br);
                } else if c == 2 {
                    assert(corner_bits(base_s, c, d0, d1) == cb_tl);
                } else {
                    assert(corner_bits(base_s, c, d0, d1) == cb_tr);
                }
            }
            assert(face_matches(face, names, size@, d0 as int, d1 as int, loc as int));
    }
    Some(face)
}

/// Lexicographic order on facet choices, matching generation order.
pub open spec fn choice_lt(e0: int, e1: int, l: int, d0: int, d1: int, loc: int) -> bool {
    e0 < d0 || (e0 == d0 && e1 < d1) || (e0 == d0 && e1 == d1 && l < loc)
}

/// The facet for the choice `(e0, e1, l)` stands at its generation
/// index with the promised contents.
pub open spec fn matched_at(
    faces: Seq<Face>,
    names: Seq<Seq<char>>,
    size: (int, int),
    n: int,
    e0: int,
    e1: int,
    l: int,
) -> bool {
    &&& 0 <= face_index(e0, e1, l, n) < faces.len()
    &&& face_matches(faces[face_index(e0, e1, l, n)], names, size, e0, e1, l)
}

/// Every facet choice before `(d0, d1, loc)` in generation order already
/// has its facet, at its generation index, with the promised contents.
pub open spec fn matched_before(
    faces: Seq<Face>,
    names: Seq<Seq<char>>,
    size: (int, int),
    n: int,
    d0: int,
    d1: int,
    loc: int,
) -> bool {
    forall|e0: int, e1: int, l: int|
        valid_choice(e0, e1, l, n) && choice_lt(e0, e1, l, d0, d1, loc) ==> #[trigger] matched_at(
            faces,
            names,
            size,
            n,
            e0,
            e1,
            l,
        )
}

/// Appending the facet for the current choice extends the matched range
/// by one placement.
proof fn lemma_matched_push(
    faces: Seq<Face>,
    face: Face,
    names: Seq<Seq<char>>,
    size: (int, int),
    n: int,
    d0: int,
    d1: int,
    loc: int,
)
    requires
        valid_choice(d0, d1, loc, n),
        matched_before(faces, names, size, n, d0, d1, loc),
        faces.len() == face_index(d0, d1, loc, n),
        face_matches(face, names, size, d0, d1, loc),
    ensures
        matched_before(faces.push(face), names, size, n, d0, d1, loc + 1),
{
    let bigger = faces.push(face);
    assert forall|e0: int, e1: int, l: int|
        valid_choice(e0, e1, l, n) && choice_lt(e0, e1, l, d0, d1, loc + 1) implies #[trigger] matched_at(
        bigger,
        names,
        size,
        n,
        e0,
        e1,
        l,
    ) by {
        if e0 == d0 && e1 == d1 && l == loc {
            assert(bigger[face_index(e0, e1, l, n)] == face);
        } else {
            assert(choice_lt(e0, e1, l, d0, d1, loc));
            assert(matched_at(faces, names, size, n, e0, e1, l));
            assert(bigger[face_index(e0, e1, l, n)] == faces[face_index(e0, e1, l, n)]);
        }
    }
}

/// Having matched every placement of `(d0, d1)` is having matched
/// everything before `(d0, d1 + 1)`.
proof fn lemma_matched_next_pair(
    faces: Seq<Face>,
    names: Seq<Seq<char>>,
    size: (int, int),
    n: int,
    d0: int,
    d1: int,
)
    requires
        0 <= d0 < d1 < n,
        matched_before(faces, names, size, n, d0, d1, pow2((n - 2) as nat) as int),
    ensures
        matched_before(faces, names, size, n, d0, d1 + 1, 0),
{
    assert forall|e0: int, e1: int, l: int|
        valid_choice(e0, e1, l, n) && choice_lt(e0, e1, l, d0, d1 + 1, 0) implies #[trigger] matched_at(
        faces,
        names,
        size,
        n,
        e0,
        e1,
        l,
    ) by {
        assert(choice_lt(e0, e1, l, d0, d1, pow2((n - 2) as nat) as int));
    }
}

/// Having matched every pair starting at `d0` is having matched
/// everything before the first pair starting at `d0 + 1`.
proof fn lemma_matched_next_axis(
    faces: Seq<Face>,
    names: Seq<Seq<char>>,
    size: (int, int),
    n: int,
    d0: int,
)
    requires
        0 <= d0 < n,
        matched_before(faces, names, size, n, d0, n, 0),
    ensures
        matched_before(faces, names, size, n, d0 + 1, d0 + 2, 0),
{
    assert forall|e0: int, e1: int, l: int|
        valid_choice(e0, e1, l, n) && choice_lt(e0, e1, l, d0 + 1, d0 + 2, 0) implies #[trigger] matched_at(
        faces,
        names,
        size,
        n,
        e0,
        e1,
        l,
    ) by {
        assert(choice_lt(e0, e1, l, d0, n, 0));
    }
}

/// The generated facet set, in generation order.
pub struct Cube {
    pub faces: Vec<Face>,
}

impl Cube {
    /// Generate every 2-dimensional facet of the cube over the given
    /// axes, each corner already projected to 3 dimensions.
    ///
    /// For every choice of two free axes and a placement among the
    /// others, the facet at that choice's generation index is fully
    /// described by `face_matches`; the total count is the number of
    /// axis pairs times the number of placements.  `None` reports a
    /// projection without an exact value (a zero divisor) or exhausted
    /// machine range; a cube is owed outright for up to three axes with
    /// a small integer size and for up to four axes at unit size, and a
    /// unit cube of up to three axes comes back with small integer
    /// facets, ready for guaranteed picking.
    #[verifier::rlimit(100)]
    pub fn new(dim_names: &Vec<String>, size: Rat) -> (r: Option<Cube>)
        requires
            2 <= dim_names@.len() <= 30,
            size.wf(),
            forall|i: int, j: int|
                0 <= i < j < dim_names@.len() ==> dim_names@[i]@ != dim_names@[j]@,
        ensures
            r matches Some(c) ==> ({
                let names = dim_names@.map_values(|s: String| s@);
                let n = dim_names@.len() as int;
                &&& c.faces@.len() == num_faces(n)
                &&& forall|d0: int, d1: int, loc: int|
                    valid_choice(d0, d1, loc, n) ==> #[trigger] matched_at(
                        c.faces@,
                        names,
                        size@,
                        n,
                        d0,
                        d1,
                        loc,
                    )
            }),
            dim_names@.len() <= 3 && size@.1 == 1 && -32768 <= size@.0 <= 32768 ==> r is Some,
            dim_names@.len() <= 4 && size@ == (1int, 1int) ==> r is Some,
            dim_names@.len() <= 3 && size@ == (1int, 1int) ==> (r matches Some(c) ==> (forall|
                i: int,
            | 0 <= i < c.faces@.len() ==> small_face(#[trigger] c.faces@[i]))),
    {
        let ghost n = dim_names@.len() as int;
        let ghost names = dim_names@.map_values(|s: String| s@);
        let ghost p2 = pow2((n - 2) as nat);
        let dim: u32 = dim_names.len() as u32;
        let pow: u32 = 1u32 << (dim - 2);
        proof {
            lemma_shl_pow2((dim - 2) as u32);
        }
        let mut faces: Vec<Face> = Vec::new();
        proof {
            assert(pair_rank(0, 1, n) * p2 == 0) by (nonlinear_arith)
                requires
                    pair_rank(0, 1, n) == 0,
            ;
        }
        let mut d0: u32 = 0;
        while d0 < dim
            invariant
                n == dim_names@.len() as int,
                2 <= n <= 30,
                dim as int == n,
                size.wf(),
                names == dim_names@.map_values(|s: String| s@),
                p2 == pow2((n - 2) as nat),
                pow as int == p2,
                d0 <= dim,
                faces@.len() == pair_rank(d0 as int, d0 as int + 1, n) * p2,
                matched_before(faces@, names, size@, n, d0 as int, d0 as int + 1, 0),
                n <= 3 && size@ == (1int, 1int) ==> (forall|i: int|
                    0 <= i < faces@.len() ==> small_face(#[trigger] faces@[i])),
            decreases dim - d0,
        {
            let mut d1: u32 = d0 + 1;
            while d1 < dim
                invariant
                    n == dim_names@.len() as int,
                    2 <= n <= 30,
                    dim as int == n,
                    size.wf(),
                    names == dim_names@.map_values(|s: String| s@),
                    p2 == pow2((n - 2) as nat),
                    pow as int == p2,
                    (d0 as int) < n,
                    d0 < d1,
                    d1 <= dim,
                    faces@.len() == pair_rank(d0 as int, d1 as int, n) * p2,
                    matched_before(faces@, names, size@, n, d0 as int, d1 as int, 0),
                    n <= 3 && size@ == (1int, 1int) ==> (forall|i: int|
                        0 <= i < faces@.len() ==> small_face(#[trigger] faces@[i])),
                decreases dim - d1,
            {
                let mut loc: u32 = 0;
                while loc < pow
                    invariant
                        n == dim_names@.len() as int,
                        2 <= n <= 30,
                        dim as int == n,
                        size.wf(),
                        names == dim_names@.map_values(|s: String| s@),
                        p2 == pow2((n - 2) as nat),
                        pow as int == p2,
                        (d0 as int) < (d1 as int) < n,
                        loc <= pow,
                        faces@.len() == pair_rank(d0 as int, d1 as int, n) * p2 + loc as int,
                        matched_before(faces@, names, size@, n, d0 as int, d1 as int, loc as int),
                        n <= 3 && size@ == (1int, 1int) ==> (forall|i: int|
                            0 <= i < faces@.len() ==> small_face(#[trigger] faces@[i])),
                    decreases pow - loc,
                {
                    let face = match build_face(dim_names, size, d0, d1, loc) {
                        Some(f) => f,
                        None => return None,
                    };
                    proof {
                        assert(face_index(d0 as int, d1 as int, loc as int, n)
                            == faces@.len() as int);
                        lemma_matched_push(
                            faces@,
                            face,
                            names,
                            size@,
                            n,
                            d0 as int,
                            d1 as int,
                            loc as int,
                        );
                    }
                    let ghost prev_faces = faces@;
                    faces.push(face);
                    proof {
                        if n <= 3 && size@ == (1int, 1int) {
                            assert forall|i: int| 0 <= i < faces@.len() implies small_face(
                                #[trigger] faces@[i],
                            ) by {
                                if i < prev_faces.len() {
                                    assert(faces@[i] == prev_faces[i]);
                                    assert(small_face(prev_faces[i]));
                                } else {
                                    assert(faces@[i] == face);
                                }
                            }
                        }
                    }
                    loc += 1;
                }
                proof {
                    assert((pair_rank(d0 as int, d1 as int, n) + 1) * p2 == pair_rank(
                        d0 as int,
                        d1 as int,
                        n,
                    ) * p2 + p2) by (nonlinear_arith);
                    lemma_matched_next_pair(faces@, names, size@, n, d0 as int, d1 as int);
                }
                d1 += 1;
            }
            proof {
                assert(tri_before(d0 as int + 1, n) == tri_before(d0 as int, n) + (n - (d0 as int
                    + 1)));
                lemma_matched_next_axis(faces@, names, size@, n, d0 as int);
            }
            d0 += 1;
        }
        proof {
            assert forall|e0: int, e1: int, l: int| valid_choice(e0, e1, l, n) implies #[trigger] matched_at(
                faces@,
                names,
                size@,
                n,
                e0,
                e1,
                l,
            ) by {
                assert(choice_lt(e0, e1, l, n, n + 1, 0));
            }
        }
        Some(Cube { faces })
    }
}

/// Squared distance between two points; distances are compared through
/// their squares, which orders them identically.
pub open spec fn dist2(o: Triple, p: Triple) -> (int, int) {
    trip_dot(trip_sub(o, p), trip_sub(o, p))
}

/// Same geometric data; the fixed-axis names may be fresh strings with
/// the same characters.
pub open spec fn face_like(a: Face, b: Face) -> bool {
    a.points@ == b.points@ && a.normal == b.normal && a.dims@ == b.dims@
}

/// An intersection list is correct when some index list `order`
/// witnesses it.
pub open spec fn picked_any(
    faces: Seq<Face>,
    origin: Triple,
    dir: Triple,
    v: Seq<(Vec3, Face)>,
) -> bool {
    exists|order: Seq<int>| picked(faces, origin, dir, v, order)
}

/// What the ordered intersection list promises: `order` lists the
/// generation indices of exactly the facets the ray hits; entry `i` of
/// the output pairs the intersection point on facet `order[i]` with a
/// copy of that facet; nearer hits come first, and equally near hits
/// keep generation order.
pub open spec fn picked(
    faces: Seq<Face>,
    origin: Triple,
    dir: Triple,
    v: Seq<(Vec3, Face)>,
    order: Seq<int>,
) -> bool {
    &&& order.len() == v.len()
    &&& (forall|i: int| 0 <= i < order.len() ==> 0 <= #[trigger] order[i] < faces.len())
    &&& (forall|i: int|
        0 <= i < v.len() ==> {
            &&& faces[order[i]].hits(origin, dir)
            &&& (#[trigger] v[i]).0.wf()
            &&& trip_eqv(v[i].0@, faces[order[i]].hit_of(origin, dir))
            &&& face_like(v[i].1, faces[order[i]])
        })
    &&& (forall|fi: int|
        0 <= fi < faces.len() ==> ((#[trigger] faces[fi]).hits(origin, dir)
            <==> order.contains(fi)))
    &&& (forall|i: int, j: int|
        #![trigger order[i], order[j]]
        0 <= i < j < order.len() ==> pair_lt(
            dist2(origin, faces[order[i]].hit_of(origin, dir)),
            dist2(origin, faces[order[j]].hit_of(origin, dir)),
        ) || (pair_eqv(
            dist2(origin, faces[order[i]].hit_of(origin, dir)),
            dist2(origin, faces[order[j]].hit_of(origin, dir)),
        ) && order[i] < order[j]))
}

/// A facet hit by a ray has a well-formed parameter, intersection point
/// and squared distance.
pub proof fn lemma_hit_wf(f: Face, origin: Triple, dir: Triple)
    requires
        f.wf(),
        trip_wf(origin),
        trip_wf(dir),
        f.denom_of(dir).0 != 0,
    ensures
        pair_wf(f.t_of(origin, dir)),
        trip_wf(f.hit_of(origin, dir)),
        pair_wf(dist2(origin, f.hit_of(origin, dir))),
{
    assert(f.points@[0].wf());
    lemma_trip_op_wf(dir, f.normal@);
    lemma_trip_op_wf(f.points@[0]@, origin);
    lemma_trip_op_wf(trip_sub(f.points@[0]@, origin), f.normal@);
    lemma_pair_op_wf(
        trip_dot(trip_sub(f.points@[0]@, origin), f.normal@),
        f.denom_of(dir),
    );
    lemma_trip_scale_wf(f.t_of(origin, dir), dir);
    lemma_trip_op_wf(origin, trip_scale(f.t_of(origin, dir), dir));
    lemma_trip_op_wf(origin, f.hit_of(origin, dir));
    lemma_trip_op_wf(
        trip_sub(origin, f.hit_of(origin, dir)),
        trip_sub(origin, f.hit_of(origin, dir)),
    );
}

/// One sorted-list entry while picking: the squared distance used as the
/// sort key, the facet's generation index, the intersection point, and
/// the facet copy handed out.
pub open spec fn entry_ok(
    e: (Rat, usize, Vec3, Face),
    faces: Seq<Face>,
    origin: Triple,
    dir: Triple,
) -> bool {
    &&& e.0.wf()
    &&& 0 <= (e.1 as int) < faces.len()
    &&& faces[e.1 as int].hits(origin, dir)
    &&& pair_eqv(e.0@, dist2(origin, faces[e.1 as int].hit_of(origin, dir)))
    &&& e.2.wf()
    &&& trip_eqv(e.2@, faces[e.1 as int].hit_of(origin, dir))
    &&& face_like(e.3, faces[e.1 as int])
}

/// Strictly sorted by key, ties broken by generation index.
pub open spec fn entries_sorted(s: Seq<(Rat, usize, Vec3, Face)>) -> bool {
    forall|i: int, j: int|
        #![trigger s[i], s[j]]
        0 <= i < j < s.len() ==> pair_lt(s[i].0@, s[j].0@) || (pair_eqv(s[i].0@, s[j].0@)
            && s[i].1 < s[j].1)
}

/// Some entry records the facet with generation index `f`.
pub open spec fn has_idx(s: Seq<(Rat, usize, Vec3, Face)>, f: int) -> bool {
    exists|i: int| 0 <= i < s.len() && (#[trigger] s[i]).1 as int == f
}

/// First position whose key is strictly greater than `key`; an entry
/// with an equal key keeps its place, so a later facet with an equal
/// distance goes after it.
fn find_pos(entries: &Vec<(Rat, usize, Vec3, Face)>, key: &Rat) -> (p: usize)
    requires
        key.wf(),
        forall|i: int| 0 <= i < entries@.len() ==> (#[trigger] entries@[i]).0.wf(),
    ensures
        p <= entries@.len(),
        forall|q: int| 0 <= q < p as int ==> !pair_lt(key@, (#[trigger] entries@[q]).0@),
        (p as int) < entries@.len() ==> pair_lt(key@, entries@[p as int].0@),
{
    let mut p: usize = 0;
    while p < entries.len()
        invariant
            p <= entries@.len(),
            key.wf(),
            forall|i: int| 0 <= i < entries@.len() ==> (#[trigger] entries@[i]).0.wf(),
            forall|q: int| 0 <= q < p as int ==> !pair_lt(key@, (#[trigger] entries@[q]).0@),
        decreases entries@.len() - p,
    {
        if key.lt(&entries[p].0) {
            return p;
        }
        p += 1;
    }
    p
}

impl Face {
    /// A copy with the same geometric data; the axis names are fresh
    /// strings with the same characters.
    pub fn duplicate(&self) -> (r: Face)
        ensures
            r.points == self.points,
            r.normal == self.normal,
            r.dims@ == self.dims@,
    {
        let mut dims2: Vec<(String, bool)> = Vec::new();
        let mut j: usize = 0;
        while j < self.dims.len()
            invariant
                j <= self.dims@.len(),
                dims2@.len() == j as int,
                forall|q: int| 0 <= q < j as int ==> #[trigger] dims2@[q] == self.dims@[q],
            decreases self.dims@.len() - j,
        {
            let name: String = self.dims[j].0.clone();
            let sign: bool = self.dims[j].1;
            dims2.push((name, sign));
            j += 1;
        }
        proof {
            assert(dims2@ =~= self.dims@);
        }
        Face { points: self.points, normal: self.normal, dims: dims2 }
    }
}

impl Cube {
    /// Every stored facet is well formed.
    pub open spec fn wf(&self) -> bool {
        forall|i: int| 0 <= i < self.faces@.len() ==> (#[trigger] self.faces@[i]).wf()
    }

    /// Intersect a ray with every facet and hand back the hits, nearest
    /// first, ties in generation order.
    ///
    /// With exact coordinates no distance can be a non-number, so no
    /// comparison can be corrupted; a computation that leaves the
    /// machine range is reported as `Err(Overflow)` instead.
    #[verifier::rlimit(100)]
    pub fn intersections(&self, origin: &Vec3, dir: &Vec3) -> (r: Result<
        Vec<(Vec3, Face)>,
        Overflow,
    >)
        requires
            self.wf(),
            origin.wf(),
            dir.wf(),
        ensures
            r matches Ok(v) ==> picked_any(self.faces@, origin@, dir@, v@),
            self.faces@.len() == 0 ==> (r matches Ok(v) && v@.len() == 0),
            (forall|i: int| 0 <= i < self.faces@.len() ==> small_face(#[trigger] self.faces@[i]))
                && small_trip(origin@) && small_trip(dir@) ==> r is Ok,
    {
        let mut entries: Vec<(Rat, usize, Vec3, Face)> = Vec::new();
        let nf: usize = self.faces.len();
        let mut fi: usize = 0;
        while fi < nf
            invariant
                fi <= nf,
                nf == self.faces@.len(),
                self.wf(),
                origin.wf(),
                dir.wf(),
                forall|i: int|
                    0 <= i < entries@.len() ==> entry_ok(
                        #[trigger] entries@[i],
                        self.faces@,
                        origin@,
                        dir@,
                    ),
                forall|i: int| 0 <= i < entries@.len() ==> (#[trigger] entries@[i]).1 < fi,
                entries_sorted(entries@),
                forall|f: int|
                    0 <= f < fi as int ==> ((#[trigger] self.faces@[f]).hits(origin@, dir@)
                        <==> has_idx(entries@, f)),
            decreases nf - fi,
        {
            let face = &self.faces[fi];
            proof {
                if (forall|i: int|
                    0 <= i < self.faces@.len() ==> small_face(#[trigger] self.faces@[i]))
                    && small_trip(origin@) && small_trip(dir@) {
                    assert(small_face(self.faces@[fi as int]));
                }
            }
            let hit_opt = match face.intersect(origin, dir) {
                Ok(h) => h,
                Err(e) => return Err(e),
            };
            match hit_opt {
                None => {
                    proof {
                        assert(!self.faces@[fi as int].hits(origin@, dir@));
                        assert(!has_idx(entries@, fi as int));
                    }
                },
                Some(hit) => {
                    proof {
                        if (forall|i: int|
                            0 <= i < self.faces@.len() ==> small_face(
                                #[trigger] self.faces@[i],
                            )) && small_trip(origin@) && small_trip(dir@) {
                            assert(hit_range(hit@));
                            lemma_bnd_addsub(origin@.0, hit@.0, 8, 1, 4608, 192);
                            lemma_bnd_addsub(origin@.1, hit@.1, 8, 1, 4608, 192);
                            lemma_bnd_addsub(origin@.2, hit@.2, 8, 1, 4608, 192);
                        }
                    }
                    let dvec = match origin.sub(&hit) {
                        Some(d) => d,
                        None => return Err(Overflow),
                    };
                    proof {
                        if (forall|i: int|
                            0 <= i < self.faces@.len() ==> small_face(
                                #[trigger] self.faces@[i],
                            )) && small_trip(origin@) && small_trip(dir@) {
                            lemma_bnd_dot(dvec@, dvec@, 6144, 192, 6144, 192);
                        }
                    }
                    let key = match dvec.dot(&dvec) {
                        Some(k) => k,
                        None => return Err(Overflow),
                    };
                    let ghost shit = self.faces@[fi as int].hit_of(origin@, dir@);
                    let ghost skey = dist2(origin@, shit);
                    proof {
                        assert(self.faces@[fi as int].wf());
                        lemma_hit_wf(self.faces@[fi as int], origin@, dir@);
                        lemma_trip_op_wf(origin@, hit@);
                        lemma_trip_op_wf(origin@, shit);
                        lemma_trip_cong(origin@, hit@, origin@, shit);
                        lemma_trip_eqv_trans(
                            dvec@,
                            trip_sub(origin@, hit@),
                            trip_sub(origin@, shit),
                        );
                        lemma_trip_op_wf(dvec@, dvec@);
                        lemma_trip_op_wf(trip_sub(origin@, shit), trip_sub(origin@, shit));
                        lemma_trip_cong(
                            dvec@,
                            dvec@,
                            trip_sub(origin@, shit),
                            trip_sub(origin@, shit),
                        );
                        lemma_eqv_trans(key@, trip_dot(dvec@, dvec@), skey);
                    }
                    let fcopy = face.duplicate();
                    let p: usize = find_pos(&entries, &key);
                    let ghost olde = entries@;
                    let ghost elem = (key, fi, hit, fcopy);
                    entries.insert(p, (key, fi, hit, fcopy));
                    proof {
                        olde.insert_ensures(p as int, elem);
                        assert(entries@ == olde.insert(p as int, elem));
                        assert(entry_ok(elem, self.faces@, origin@, dir@));
                        // strictly sorted: smaller keys stay before, the
                        // first strictly greater key and everything after
                        // it moves behind the new entry
                        assert forall|i: int, j: int|
                            #![trigger entries@[i], entries@[j]]
                            0 <= i < j < entries@.len() implies pair_lt(
                            entries@[i].0@,
                            entries@[j].0@,
                        ) || (pair_eqv(entries@[i].0@, entries@[j].0@) && entries@[i].1
                            < entries@[j].1) by {
                            if i < p as int && j == p as int {
                                assert(entries@[i] == olde[i]);
                            } else if i == p as int && j > p as int {
                                assert(entries@[j] == olde[j - 1]);
                                assert(pair_lt(key@, olde[p as int].0@));
                                if (p as int) < j - 1 {
                                    assert(olde[p as int].0.wf());
                                    assert(olde[j - 1].0.wf());
                                    assert(pair_lt(olde[p as int].0@, olde[j - 1].0@) || (
                                    pair_eqv(olde[p as int].0@, olde[j - 1].0@) && olde[
                                        p as int
                                    ].1 < olde[j - 1].1));
                                    lemma_order_trans(key@, olde[p as int].0@, olde[j - 1].0@);
                                }
                            } else if i < p as int && j > p as int {
                                assert(entries@[i] == olde[i]);
                                assert(entries@[j] == olde[j - 1]);
                            } else if i > p as int && j > p as int {
                                assert(entries@[i] == olde[i - 1]);
                                assert(entries@[j] == olde[j - 1]);
                            } else if i < p as int && j < p as int {
                                assert(entries@[i] == olde[i]);
                                assert(entries@[j] == olde[j]);
                            }
                        }
                        // membership: the recorded indices are the old
                        // ones plus the current facet
                        assert forall|f: int| 0 <= f < fi as int + 1 implies ((
                        #[trigger] self.faces@[f]).hits(origin@, dir@) <==> has_idx(
                            entries@,
                            f,
                        )) by {
                            if f == fi as int {
                                assert(entries@[p as int].1 as int == f);
                            } else {
                                if self.faces@[f].hits(origin@, dir@) {
                                    let i = choose|i: int|
                                        0 <= i < olde.len() && (#[trigger] olde[i]).1 as int == f;
                                    if i < p as int {
                                        assert(entries@[i].1 as int == f);
                                    } else {
                                        assert(entries@[i + 1].1 as int == f);
                                    }
                                }
                                if has_idx(entries@, f) {
                                    let i = choose|i: int|
                                        0 <= i < entries@.len() && (#[trigger] entries@[i]).1 as int
                                            == f;
                                    if i < p as int {
                                        assert(olde[i].1 as int == f);
                                    } else {
                                        assert(i != p as int);
                                        assert(olde[i - 1].1 as int == f);
                                    }
                                }
                            }
                        }
                    }
                },
            }
            fi += 1;
        }
        let mut out: Vec<(Vec3, Face)> = Vec::new();
        let mut j: usize = 0;
        while j < entries.len()
            invariant
                j <= entries@.len(),
                nf == self.faces@.len(),
                self.wf(),
                origin.wf(),
                dir.wf(),
                forall|i: int|
                    0 <= i < entries@.len() ==> entry_ok(
                        #[trigger] entries@[i],
                        self.faces@,
                        origin@,
                        dir@,
                    ),
                entries_sorted(entries@),
                forall|f: int|
                    0 <= f < nf as int ==> ((#[trigger] self.faces@[f]).hits(origin@, dir@)
                        <==> has_idx(entries@, f)),
                out@.len() == j as int,
                forall|q: int|
                    0 <= q < j as int ==> (#[trigger] out@[q]).0 == entries@[q].2 && face_like(
                        out@[q].1,
                        entries@[q].3,
                    ),
            decreases entries@.len() - j,
        {
            let e = &entries[j];
            let f2 = e.3.duplicate();
            out.push((e.2, f2));
            j += 1;
        }
        proof {
            let order = Seq::new(entries@.len(), |i: int| entries@[i].1 as int);
            assert forall|i: int| 0 <= i < order.len() implies 0 <= #[trigger] order[i]
                < self.faces@.len() by {
                assert(entry_ok(entries@[i], self.faces@, origin@, dir@));
            }
            assert forall|i: int|
                0 <= i < out@.len() implies {
                &&& self.faces@[order[i]].hits(origin@, dir@)
                &&& (#[trigger] out@[i]).0.wf()
                &&& trip_eqv(out@[i].0@, self.faces@[order[i]].hit_of(origin@, dir@))
                &&& face_like(out@[i].1, self.faces@[order[i]])
            } by {
                assert(entry_ok(entries@[i], self.faces@, origin@, dir@));
            }
            assert forall|f: int| 0 <= f < self.faces@.len() implies ((
            #[trigger] self.faces@[f]).hits(origin@, dir@) <==> order.contains(f)) by {
                if self.faces@[f].hits(origin@, dir@) {
                    let i = choose|i: int|
                        0 <= i < entries@.len() && (#[trigger] entries@[i]).1 as int == f;
                    assert(order[i] == f);
                }
                if order.contains(f) {
                    let i = choose|i: int| 0 <= i < order.len() && order[i] == f;
                    assert(entries@[i].1 as int == f);
                }
            }
            assert forall|i: int, j2: int|
                #![trigger order[i], order[j2]]
                0 <= i < j2 < order.len() implies pair_lt(
                dist2(origin@, self.faces@[order[i]].hit_of(origin@, dir@)),
                dist2(origin@, self.faces@[order[j2]].hit_of(origin@, dir@)),
            ) || (pair_eqv(
                dist2(origin@, self.faces@[order[i]].hit_of(origin@, dir@)),
                dist2(origin@, self.faces@[order[j2]].hit_of(origin@, dir@)),
            ) && order[i] < order[j2]) by {
                assert(entry_ok(entries@[i], self.faces@, origin@, dir@));
                assert(entry_ok(entries@[j2], self.faces@, origin@, dir@));
                let ki = dist2(origin@, self.faces@[order[i]].hit_of(origin@, dir@));
                let kj = dist2(origin@, self.faces@[order[j2]].hit_of(origin@, dir@));
                lemma_hit_wf(self.faces@[order[i]], origin@, dir@);
                lemma_hit_wf(self.faces@[order[j2]], origin@, dir@);
                lemma_order_cong(entries@[i].0@, entries@[j2].0@, ki, kj);
            }
            assert(picked(self.faces@, origin@, dir@, out@, order));
            assert(picked_any(self.faces@, origin@, dir@, out@));
            if self.faces@.len() == 0 && entries@.len() > 0 {
                assert(entry_ok(entries@[0], self.faces@, origin@, dir@));
                assert(false);
            }
        }
        Ok(out)
    }
}

/// The inside-out test only depends on the value of the tested point,
/// not on the representation it is handed in.
proof fn lemma_edge_inside_cong(v0: Triple, v1: Triple, q: Triple, q2: Triple, n: Triple)
    requires
        trip_wf(v0),
        trip_wf(v1),
        trip_wf(q),
        trip_wf(q2),
        trip_wf(n),
        trip_eqv(q, q2),
    ensures
        Face::edge_inside(v0, v1, q, n) == Face::edge_inside(v0, v1, q2, n),
{
    let e = trip_sub(v1, v0);
    let w = trip_sub(q, v0);
    let w2 = trip_sub(q2, v0);
    lemma_trip_op_wf(v1, v0);
    lemma_trip_op_wf(q, v0);
    lemma_trip_op_wf(q2, v0);
    lemma_trip_cong(q, v0, q2, v0);
    lemma_trip_op_wf(e, w);
    lemma_trip_op_wf(e, w2);
    lemma_trip_cong(e, w, e, w2);
    lemma_trip_op_wf(trip_cross(e, w), n);
    lemma_trip_op_wf(trip_cross(e, w2), n);
    lemma_trip_cong(trip_cross(e, w), n, trip_cross(e, w2), n);
    lemma_order_cong(
        (0int, 1int),
        trip_dot(trip_cross(e, w), n),
        (0int, 1int),
        trip_dot(trip_cross(e, w2), n),
    );
}

} // verus!
