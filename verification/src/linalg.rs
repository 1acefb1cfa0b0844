//! 3-component vectors over exact rationals, and the dimensional
//! projection that collapses an N-dimensional point down to 3 dimensions.
//!
//! The projection pads short points with zeros and, for every dimension
//! above the third, divides all coordinates by that coordinate plus a
//! fixed camera distance of 3, scaled by the tangent of half a 45-degree
//! field of view.  The tangent is irrational, so the core uses the
//! rational constant `408/985`, a continued-fraction convergent of
//! `tan(22.5 deg)` within four parts in ten million.

use vstd::prelude::*;

use crate::rat::lemma_ring_cong;
use crate::rat::lemma_div_cong;
use crate::rat::lemma_eqv_trans;
use crate::rat::lemma_eqv_zero;
use crate::rat::lemma_order_cong;
use crate::rat::lemma_pair_op_wf;
use crate::rat::pair_add;
use crate::rat::pair_div;
use crate::rat::pair_eqv;
use crate::rat::pair_fits;
use crate::rat::pair_mul;
use crate::rat::pair_sub;
use crate::rat::pair_sub_c;
use crate::rat::pair_wf;
use crate::rat::Rat;

verus! {

/// Mathematical value of a 3-vector: three numerator/denominator pairs.
pub type Triple = ((int, int), (int, int), (int, int));

pub open spec fn trip_wf(t: Triple) -> bool {
    pair_wf(t.0) && pair_wf(t.1) && pair_wf(t.2)
}

pub open spec fn trip_eqv(a: Triple, b: Triple) -> bool {
    pair_eqv(a.0, b.0) && pair_eqv(a.1, b.1) && pair_eqv(a.2, b.2)
}

pub open spec fn trip_add(a: Triple, b: Triple) -> Triple {
    (pair_add(a.0, b.0), pair_add(a.1, b.1), pair_add(a.2, b.2))
}

pub open spec fn trip_sub(a: Triple, b: Triple) -> Triple {
    (pair_sub(a.0, b.0), pair_sub(a.1, b.1), pair_sub(a.2, b.2))
}

pub open spec fn trip_scale(f: (int, int), v: Triple) -> Triple {
    (pair_mul(f, v.0), pair_mul(f, v.1), pair_mul(f, v.2))
}

pub open spec fn trip_cross(a: Triple, b: Triple) -> Triple {
    (
        pair_sub(pair_mul(a.1, b.2), pair_mul(a.2, b.1)),
        pair_sub(pair_mul(a.2, b.0), pair_mul(a.0, b.2)),
        pair_sub(pair_mul(a.0, b.1), pair_mul(a.1, b.0)),
    )
}

pub open spec fn trip_dot(a: Triple, b: Triple) -> (int, int) {
    pair_add(pair_add(pair_mul(a.0, b.0), pair_mul(a.1, b.1)), pair_mul(a.2, b.2))
}

/// The representation a cross product keeps: each component's two
/// products subtract over their common denominator when they share one.
pub open spec fn trip_cross_c(a: Triple, b: Triple) -> Triple {
    (
        pair_sub_c(pair_mul(a.1, b.2), pair_mul(a.2, b.1)),
        pair_sub_c(pair_mul(a.2, b.0), pair_mul(a.0, b.2)),
        pair_sub_c(pair_mul(a.0, b.1), pair_mul(a.1, b.0)),
    )
}

/// All values a cross product computes stay in machine range.
pub open spec fn cross_fits_c(a: Triple, b: Triple) -> bool {
    &&& pair_fits(pair_mul(a.1, b.2)) && pair_fits(pair_mul(a.2, b.1)) && pair_fits(
        pair_sub_c(pair_mul(a.1, b.2), pair_mul(a.2, b.1)),
    )
    &&& pair_fits(pair_mul(a.2, b.0)) && pair_fits(pair_mul(a.0, b.2)) && pair_fits(
        pair_sub_c(pair_mul(a.2, b.0), pair_mul(a.0, b.2)),
    )
    &&& pair_fits(pair_mul(a.0, b.1)) && pair_fits(pair_mul(a.1, b.0)) && pair_fits(
        pair_sub_c(pair_mul(a.0, b.1), pair_mul(a.1, b.0)),
    )
}

/// A difference whose cross-multiplied form fits also fits over a
/// common denominator.
proof fn lemma_sub_c_fits(a: (int, int), b: (int, int))
    requires
        pair_wf(a),
        pair_wf(b),
        pair_fits(a),
        pair_fits(b),
        pair_fits(pair_sub(a, b)),
    ensures
        pair_fits(pair_sub_c(a, b)),
{
    if a.1 == b.1 {
        assert(-(i64::MAX as int) <= a.0 - b.0 <= i64::MAX as int) by (nonlinear_arith)
            requires
                a.1 == b.1,
                1 <= a.1,
                -(i64::MAX as int) <= a.0 * b.1 - b.0 * a.1 <= i64::MAX as int,
        ;
    }
}

/// When the cross-multiplied differences of a cross product fit, so do
/// the common-denominator ones.
pub proof fn lemma_cross_fits_c(a: Triple, b: Triple)
    requires
        trip_wf(a),
        trip_wf(b),
        cross_fits(a, b),
    ensures
        cross_fits_c(a, b),
{
    lemma_pair_op_wf(a.1, b.2);
    lemma_pair_op_wf(a.2, b.1);
    lemma_pair_op_wf(a.2, b.0);
    lemma_pair_op_wf(a.0, b.2);
    lemma_pair_op_wf(a.0, b.1);
    lemma_pair_op_wf(a.1, b.0);
    lemma_sub_c_fits(pair_mul(a.1, b.2), pair_mul(a.2, b.1));
    lemma_sub_c_fits(pair_mul(a.2, b.0), pair_mul(a.0, b.2));
    lemma_sub_c_fits(pair_mul(a.0, b.1), pair_mul(a.1, b.0));
}

/// All intermediate values of a cross product stay in machine range.
pub open spec fn cross_fits(a: Triple, b: Triple) -> bool {
    &&& pair_fits(pair_mul(a.1, b.2)) && pair_fits(pair_mul(a.2, b.1)) && pair_fits(
        pair_sub(pair_mul(a.1, b.2), pair_mul(a.2, b.1)),
    )
    &&& pair_fits(pair_mul(a.2, b.0)) && pair_fits(pair_mul(a.0, b.2)) && pair_fits(
        pair_sub(pair_mul(a.2, b.0), pair_mul(a.0, b.2)),
    )
    &&& pair_fits(pair_mul(a.0, b.1)) && pair_fits(pair_mul(a.1, b.0)) && pair_fits(
        pair_sub(pair_mul(a.0, b.1), pair_mul(a.1, b.0)),
    )
}

/// All intermediate values of a dot product stay in machine range.
pub open spec fn dot_fits(a: Triple, b: Triple) -> bool {
    &&& pair_fits(pair_mul(a.0, b.0)) && pair_fits(pair_mul(a.1, b.1)) && pair_fits(
        pair_mul(a.2, b.2),
    )
    &&& pair_fits(pair_add(pair_mul(a.0, b.0), pair_mul(a.1, b.1)))
    &&& pair_fits(pair_add(pair_add(pair_mul(a.0, b.0), pair_mul(a.1, b.1)), pair_mul(a.2, b.2)))
}

/// A 3-dimensional point or direction with exact rational coordinates.
#[derive(Clone, Copy, Debug)]
pub struct Vec3 {
    pub x: Rat,
    pub y: Rat,
    pub z: Rat,
}

impl View for Vec3 {
    type V = Triple;

    open spec fn view(&self) -> Triple {
        (self.x@, self.y@, self.z@)
    }
}

impl Vec3 {
    pub open spec fn wf(&self) -> bool {
        self.x.wf() && self.y.wf() && self.z.wf()
    }

    pub fn new(x: Rat, y: Rat, z: Rat) -> (r: Vec3)
        ensures
            r@ == (x@, y@, z@),
    {
        Vec3 { x, y, z }
    }

    pub fn sub(&self, other: &Vec3) -> (r: Option<Vec3>)
        requires
            self.wf(),
            other.wf(),
        ensures
            r matches Some(v) ==> v.wf() && trip_eqv(v@, trip_sub(self@, other@)),
            pair_fits(pair_sub(self@.0, other@.0)) && pair_fits(pair_sub(self@.1, other@.1))
                && pair_fits(pair_sub(self@.2, other@.2)) ==> (r matches Some(v) && v@
                == trip_sub(self@, other@)),
    {
        let x = match self.x.sub(&other.x) {
            Some(x) => x,
            None => return None,
        };
        let y = match self.y.sub(&other.y) {
            Some(y) => y,
            None => return None,
        };
        let z = match self.z.sub(&other.z) {
            Some(z) => z,
            None => return None,
        };
        Some(Vec3 { x, y, z })
    }

    pub fn add(&self, other: &Vec3) -> (r: Option<Vec3>)
        requires
            self.wf(),
            other.wf(),
        ensures
            r matches Some(v) ==> v.wf() && trip_eqv(v@, trip_add(self@, other@)),
            pair_fits(pair_add(self@.0, other@.0)) && pair_fits(pair_add(self@.1, other@.1))
                && pair_fits(pair_add(self@.2, other@.2)) ==> (r matches Some(v) && v@
                == trip_add(self@, other@)),
    {
        let x = match self.x.add(&other.x) {
            Some(x) => x,
            None => return None,
        };
        let y = match self.y.add(&other.y) {
            Some(y) => y,
            None => return None,
        };
        let z = match self.z.add(&other.z) {
            Some(z) => z,
            None => return None,
        };
        Some(Vec3 { x, y, z })
    }

    pub fn scale(&self, f: &Rat) -> (r: Option<Vec3>)
        requires
            self.wf(),
            f.wf(),
        ensures
            r matches Some(v) ==> v.wf() && trip_eqv(v@, trip_scale(f@, self@)),
            pair_fits(pair_mul(f@, self@.0)) && pair_fits(pair_mul(f@, self@.1)) && pair_fits(
                pair_mul(f@, self@.2),
            ) ==> (r matches Some(v) && v@ == trip_scale(f@, self@)),
    {
        let x = match f.mul(&self.x) {
            Some(x) => x,
            None => return None,
        };
        let y = match f.mul(&self.y) {
            Some(y) => y,
            None => return None,
        };
        let z = match f.mul(&self.z) {
            Some(z) => z,
            None => return None,
        };
        Some(Vec3 { x, y, z })
    }

    pub fn dot(&self, other: &Vec3) -> (r: Option<Rat>)
        requires
            self.wf(),
            other.wf(),
        ensures
            r matches Some(v) ==> v.wf() && pair_eqv(v@, trip_dot(self@, other@)),
            dot_fits(self@, other@) ==> (r matches Some(v) && v@ == trip_dot(self@, other@)),
    {
        let xx = match self.x.mul(&other.x) {
            Some(p) => p,
            None => return None,
        };
        let yy = match self.y.mul(&other.y) {
            Some(p) => p,
            None => return None,
        };
        let zz = match self.z.mul(&other.z) {
            Some(p) => p,
            None => return None,
        };
        let s1 = match xx.add(&yy) {
            Some(p) => p,
            None => return None,
        };
        let s2 = match s1.add(&zz) {
            Some(p) => p,
            None => return None,
        };
        proof {
            let mx = pair_mul(self@.0, other@.0);
            let my = pair_mul(self@.1, other@.1);
            let mz = pair_mul(self@.2, other@.2);
            lemma_pair_op_wf(self@.0, other@.0);
            lemma_pair_op_wf(self@.1, other@.1);
            lemma_pair_op_wf(self@.2, other@.2);
            lemma_pair_op_wf(mx, my);
            lemma_pair_op_wf(pair_add(mx, my), mz);
            lemma_pair_op_wf(xx@, yy@);
            lemma_pair_op_wf(s1@, zz@);
            // the computed partial sum stands for the sum of the products
            lemma_ring_cong(xx@, yy@, mx, my);
            lemma_eqv_trans(s1@, pair_add(xx@, yy@), pair_add(mx, my));
            lemma_ring_cong(s1@, zz@, pair_add(mx, my), mz);
            lemma_eqv_trans(s2@, pair_add(s1@, zz@), pair_add(pair_add(mx, my), mz));
        }
        Some(s2)
    }

    pub fn cross(&self, other: &Vec3) -> (r: Option<Vec3>)
        requires
            self.wf(),
            other.wf(),
        ensures
            r matches Some(v) ==> v.wf() && trip_eqv(v@, trip_cross(self@, other@)),
            cross_fits_c(self@, other@) ==> (r matches Some(v) && v@ == trip_cross_c(self@, other@)),
    {
        let x = match cross_component(&self.y, &other.z, &self.z, &other.y) {
            Some(p) => p,
            None => return None,
        };
        let y = match cross_component(&self.z, &other.x, &self.x, &other.z) {
            Some(p) => p,
            None => return None,
        };
        let z = match cross_component(&self.x, &other.y, &self.y, &other.x) {
            Some(p) => p,
            None => return None,
        };
        Some(Vec3 { x, y, z })
    }
}

/// One component of a cross product: `a*b - c*d`.
fn cross_component(a: &Rat, b: &Rat, c: &Rat, d: &Rat) -> (r: Option<Rat>)
    requires
        a.wf(),
        b.wf(),
        c.wf(),
        d.wf(),
    ensures
        r matches Some(v) ==> v.wf() && pair_eqv(
            v@,
            pair_sub(pair_mul(a@, b@), pair_mul(c@, d@)),
        ),
        pair_fits(pair_mul(a@, b@)) && pair_fits(pair_mul(c@, d@)) && pair_fits(
            pair_sub_c(pair_mul(a@, b@), pair_mul(c@, d@)),
        ) ==> (r matches Some(v) && v@ == pair_sub_c(pair_mul(a@, b@), pair_mul(c@, d@))),
{
    let ab = match a.mul(b) {
        Some(p) => p,
        None => return None,
    };
    let cd = match c.mul(d) {
        Some(p) => p,
        None => return None,
    };
    let diff = if ab.den() == cd.den() {
        ab.sub_samed(&cd)
    } else {
        ab.sub(&cd)
    };
    let r = match diff {
        Some(p) => p,
        None => return None,
    };
    proof {
        lemma_pair_op_wf(a@, b@);
        lemma_pair_op_wf(c@, d@);
        lemma_pair_op_wf(ab@, cd@);
        lemma_pair_op_wf(pair_mul(a@, b@), pair_mul(c@, d@));
        lemma_ring_cong(ab@, cd@, pair_mul(a@, b@), pair_mul(c@, d@));
        lemma_eqv_trans(r@, pair_sub(ab@, cd@), pair_sub(pair_mul(a@, b@), pair_mul(c@, d@)));
    }
    Some(r)
}

/// The rational stand-in for `tan(22.5 deg)`, the half-tangent of the
/// 45-degree field of view used by each collapse pass.
pub open spec fn fov_scale_pair() -> (int, int) {
    (408int, 985int)
}

/// The fixed camera distance added to the depth coordinate of each pass.
pub open spec fn three_pair() -> (int, int) {
    (3int, 1int)
}

/// A point padded on the right with zeros to at least 3 coordinates.
pub open spec fn pad3(s: Seq<(int, int)>) -> Seq<(int, int)> {
    if s.len() >= 3 {
        s
    } else {
        s + Seq::new((3 - s.len() as int) as nat, |i: int| (0int, 1int))
    }
}

/// One perspective pass at dimension `k`: every coordinate is scaled by
/// the half-tangent over the depth coordinate `s[k-1]` plus 3.
pub open spec fn scale_pass(s: Seq<(int, int)>, k: int) -> Seq<(int, int)> {
    let f = pair_div(fov_scale_pair(), pair_add(s[k - 1], three_pair()));
    s.map_values(|p: (int, int)| pair_mul(f, p))
}

/// The point after the passes at dimensions `s.len()` down to `k`,
/// applied from the highest dimension first.
pub open spec fn collapse_state(s: Seq<(int, int)>, k: int) -> Seq<(int, int)>
    decreases s.len() + 1 - k,
{
    if 4 <= k <= s.len() {
        scale_pass(collapse_state(s, k + 1), k)
    } else {
        s
    }
}

/// Whether every divisor met by the passes at dimensions `s.len()` down
/// to `k` is non-zero.
pub open spec fn passes_defined(s: Seq<(int, int)>, k: int) -> bool
    decreases s.len() + 1 - k,
{
    if 4 <= k <= s.len() {
        passes_defined(s, k + 1) && pair_add(collapse_state(s, k + 1)[k - 1], three_pair()).0
            != 0
    } else {
        true
    }
}

/// All arithmetic of the single pass at dimension `k`, applied to the
/// exact state `s`, stays in machine range, with a usable divisor.
pub open spec fn pass_fits(s: Seq<(int, int)>, k: int) -> bool {
    let divisor = pair_add(s[k - 1], three_pair());
    let f = pair_div(fov_scale_pair(), divisor);
    &&& pair_fits(divisor)
    &&& divisor.0 != 0
    &&& pair_fits(f)
    &&& forall|j: int| 0 <= j < s.len() ==> pair_fits(pair_mul(f, #[trigger] s[j]))
}

/// Every pass from the highest dimension down to `k` computes within
/// machine range; under this condition the projection is owed a result,
/// and it is exactly the collapse of the point.
pub open spec fn project_fits(s: Seq<(int, int)>, k: int) -> bool
    decreases s.len() + 1 - k,
{
    if 4 <= k <= s.len() {
        project_fits(s, k + 1) && pass_fits(collapse_state(s, k + 1), k)
    } else {
        true
    }
}

/// The in-range condition for all passes covers each later suffix.
pub proof fn lemma_project_fits_from(s: Seq<(int, int)>, m: int, k: int)
    requires
        4 <= m <= k,
        project_fits(s, m),
    ensures
        project_fits(s, k),
    decreases k - m,
{
    if m < k {
        if m > s.len() {
            assert(project_fits(s, m + 1));
        }
        lemma_project_fits_from(s, m + 1, k);
    }
}

/// As long as every divisor is non-zero, each collapse state keeps the
/// point's length and stays well formed.
pub proof fn lemma_collapse_state_wf(s: Seq<(int, int)>, k: int)
    requires
        forall|i: int| 0 <= i < s.len() ==> pair_wf(#[trigger] s[i]),
        passes_defined(s, k),
    ensures
        collapse_state(s, k).len() == s.len(),
        forall|i: int| 0 <= i < s.len() ==> pair_wf(#[trigger] collapse_state(s, k)[i]),
    decreases s.len() + 1 - k,
{
    if 4 <= k <= s.len() {
        lemma_collapse_state_wf(s, k + 1);
        let prev = collapse_state(s, k + 1);
        let divisor = pair_add(prev[k - 1], three_pair());
        lemma_pair_op_wf(prev[k - 1], three_pair());
        lemma_pair_op_wf(fov_scale_pair(), divisor);
        let f = pair_div(fov_scale_pair(), divisor);
        assert forall|i: int| 0 <= i < s.len() implies pair_wf(
            #[trigger] collapse_state(s, k)[i],
        ) by {
            lemma_pair_op_wf(f, prev[i]);
        }
    }
}

/// The vector operations preserve well-formedness.
pub proof fn lemma_trip_op_wf(a: Triple, b: Triple)
    requires
        trip_wf(a),
        trip_wf(b),
    ensures
        trip_wf(trip_add(a, b)),
        trip_wf(trip_sub(a, b)),
        trip_wf(trip_cross(a, b)),
        pair_wf(trip_dot(a, b)),
{
    lemma_pair_op_wf(a.0, b.0);
    lemma_pair_op_wf(a.1, b.1);
    lemma_pair_op_wf(a.2, b.2);
    lemma_pair_op_wf(a.1, b.2);
    lemma_pair_op_wf(a.2, b.1);
    lemma_pair_op_wf(pair_mul(a.1, b.2), pair_mul(a.2, b.1));
    lemma_pair_op_wf(a.2, b.0);
    lemma_pair_op_wf(a.0, b.2);
    lemma_pair_op_wf(pair_mul(a.2, b.0), pair_mul(a.0, b.2));
    lemma_pair_op_wf(a.0, b.1);
    lemma_pair_op_wf(a.1, b.0);
    lemma_pair_op_wf(pair_mul(a.0, b.1), pair_mul(a.1, b.0));
    lemma_pair_op_wf(pair_mul(a.0, b.0), pair_mul(a.1, b.1));
    lemma_pair_op_wf(pair_add(pair_mul(a.0, b.0), pair_mul(a.1, b.1)), pair_mul(a.2, b.2));
}

pub proof fn lemma_trip_scale_wf(f: (int, int), v: Triple)
    requires
        pair_wf(f),
        trip_wf(v),
    ensures
        trip_wf(trip_scale(f, v)),
{
    lemma_pair_op_wf(f, v.0);
    lemma_pair_op_wf(f, v.1);
    lemma_pair_op_wf(f, v.2);
}

pub proof fn lemma_trip_eqv_trans(a: Triple, b: Triple, c: Triple)
    requires
        trip_wf(a),
        trip_wf(b),
        trip_wf(c),
        trip_eqv(a, b),
        trip_eqv(b, c),
    ensures
        trip_eqv(a, c),
{
    lemma_eqv_trans(a.0, b.0, c.0);
    lemma_eqv_trans(a.1, b.1, c.1);
    lemma_eqv_trans(a.2, b.2, c.2);
}

/// The vector operations respect equivalence of their operands.
pub proof fn lemma_trip_cong(a: Triple, b: Triple, c: Triple, d: Triple)
    requires
        trip_eqv(a, c),
        trip_eqv(b, d),
    ensures
        trip_eqv(trip_add(a, b), trip_add(c, d)),
        trip_eqv(trip_sub(a, b), trip_sub(c, d)),
        trip_eqv(trip_cross(a, b), trip_cross(c, d)),
        pair_eqv(trip_dot(a, b), trip_dot(c, d)),
{
    lemma_ring_cong(a.0, b.0, c.0, d.0);
    lemma_ring_cong(a.1, b.1, c.1, d.1);
    lemma_ring_cong(a.2, b.2, c.2, d.2);
    lemma_ring_cong(a.1, b.2, c.1, d.2);
    lemma_ring_cong(a.2, b.1, c.2, d.1);
    lemma_ring_cong(pair_mul(a.1, b.2), pair_mul(a.2, b.1), pair_mul(c.1, d.2), pair_mul(c.2, d.1));
    lemma_ring_cong(a.2, b.0, c.2, d.0);
    lemma_ring_cong(a.0, b.2, c.0, d.2);
    lemma_ring_cong(pair_mul(a.2, b.0), pair_mul(a.0, b.2), pair_mul(c.2, d.0), pair_mul(c.0, d.2));
    lemma_ring_cong(a.0, b.1, c.0, d.1);
    lemma_ring_cong(a.1, b.0, c.1, d.0);
    lemma_ring_cong(pair_mul(a.0, b.1), pair_mul(a.1, b.0), pair_mul(c.0, d.1), pair_mul(c.1, d.0));
    lemma_ring_cong(pair_mul(a.0, b.0), pair_mul(a.1, b.1), pair_mul(c.0, d.0), pair_mul(c.1, d.1));
    lemma_ring_cong(
        pair_add(pair_mul(a.0, b.0), pair_mul(a.1, b.1)),
        pair_mul(a.2, b.2),
        pair_add(pair_mul(c.0, d.0), pair_mul(c.1, d.1)),
        pair_mul(c.2, d.2),
    );
}

pub proof fn lemma_trip_scale_cong(f: (int, int), g: (int, int), a: Triple, b: Triple)
    requires
        pair_eqv(f, g),
        trip_eqv(a, b),
    ensures
        trip_eqv(trip_scale(f, a), trip_scale(g, b)),
{
    lemma_ring_cong(f, a.0, g, b.0);
    lemma_ring_cong(f, a.1, g, b.1);
    lemma_ring_cong(f, a.2, g, b.2);
}

fn fov_scale() -> (r: Rat)
    ensures
        r.wf(),
        r@ == fov_scale_pair(),
{
    Rat::from_parts(408, 985)
}

/// Append copies of `pad` until the vector has at least `len` elements.
fn right_pad_vec(x: &mut Vec<Rat>, len: usize, pad: Rat)
    ensures
        final(x)@.len() == if old(x)@.len() >= len as int {
            old(x)@.len() as int
        } else {
            len as int
        },
        forall|j: int| 0 <= j < old(x)@.len() ==> final(x)@[j] == old(x)@[j],
        forall|j: int| old(x)@.len() <= j < final(x)@.len() ==> final(x)@[j] == pad,
{
    while x.len() < len
        invariant
            x@.len() >= old(x)@.len(),
            x@.len() <= old(x)@.len() || x@.len() <= len as int,
            forall|j: int| 0 <= j < old(x)@.len() ==> x@[j] == old(x)@[j],
            forall|j: int| old(x)@.len() <= j < x@.len() ==> x@[j] == pad,
        decreases len as int - x@.len(),
    {
        x.push(pad);
    }
}

/// Collapse an N-dimensional point to 3 dimensions.
///
/// A point with at most 3 coordinates comes back unchanged, zero-padded
/// to exactly 3.  Higher-dimensional points go through one perspective
/// pass per extra dimension, from the highest dimension down to the
/// fourth; a pass whose divisor is zero has no exact value (inexact
/// arithmetic would make that coordinate non-finite) and yields `None`,
/// as does a coordinate that leaves the machine range.
#[verifier::rlimit(60)]
pub fn project(v: &Vec<Rat>) -> (r: Option<Vec3>)
    requires
        forall|i: int| 0 <= i < v@.len() ==> #[trigger] v@[i].wf(),
    ensures
        v@.len() <= 3 ==> r is Some,
        !passes_defined(pad3(v@.map_values(|q: Rat| q@)), 4) ==> r is None,
        r matches Some(p) ==> {
            let fin = collapse_state(pad3(v@.map_values(|q: Rat| q@)), 4);
            &&& p.wf()
            &&& passes_defined(pad3(v@.map_values(|q: Rat| q@)), 4)
            &&& pair_eqv(p.x@, fin[0])
            &&& pair_eqv(p.y@, fin[1])
            &&& pair_eqv(p.z@, fin[2])
        },
        v@.len() <= 3 ==> (r matches Some(p) ==> {
            &&& (v@.len() >= 1 ==> p.x == v@[0]) && (v@.len() < 1 ==> p.x@ == (0int, 1int))
            &&& (v@.len() >= 2 ==> p.y == v@[1]) && (v@.len() < 2 ==> p.y@ == (0int, 1int))
            &&& (v@.len() >= 3 ==> p.z == v@[2]) && (v@.len() < 3 ==> p.z@ == (0int, 1int))
        }),
        project_fits(pad3(v@.map_values(|q: Rat| q@)), 4) ==> r is Some,
        project_fits(pad3(v@.map_values(|q: Rat| q@)), 4) ==> (r matches Some(p) ==> {
            let fin = collapse_state(pad3(v@.map_values(|q: Rat| q@)), 4);
            &&& p.x@ == fin[0]
            &&& p.y@ == fin[1]
            &&& p.z@ == fin[2]
        }),
{
    let ghost pv = pad3(v@.map_values(|q: Rat| q@));
    let n: usize = v.len();
    let mut tmp: Vec<Rat> = Vec::new();
    let mut i: usize = 0;
    while i < n
        invariant
            i <= n,
            n == v@.len(),
            tmp@.len() == i as int,
            forall|j: int| 0 <= j < v@.len() ==> #[trigger] v@[j].wf(),
            forall|j: int| 0 <= j < i as int ==> tmp@[j] == v@[j],
        decreases n - i,
    {
        tmp.push(v[i]);
        i += 1;
    }
    right_pad_vec(&mut tmp, 3, Rat::zero());
    let ghost m = tmp@.len();
    proof {
        assert(m == pv.len());
        assert(forall|j: int| 0 <= j < m ==> #[trigger] tmp@[j].wf());
        assert(forall|j: int| 0 <= j < m ==> #[trigger] tmp@[j]@ == pv[j]);
        assert forall|j: int| 0 <= j < pv.len() implies pair_wf(#[trigger] pv[j]) by {
            assert(tmp@[j]@ == pv[j]);
            assert(tmp@[j].wf());
        }
        assert forall|j: int| 0 <= j < m implies pair_eqv(
            #[trigger] tmp@[j]@,
            collapse_state(pv, n as int + 1)[j],
        ) by {
            assert(collapse_state(pv, n as int + 1) == pv);
            assert(tmp@[j]@ == pv[j]);
        }
    }
    let t = fov_scale();
    let three = Rat::from_int(3);
    let mut k: usize = n;
    while k >= 4
        invariant
            n == v@.len(),
            pv == pad3(v@.map_values(|q: Rat| q@)),
            tmp@.len() == m,
            m == pv.len(),
            m == if n as int >= 3 {
                n as int
            } else {
                3
            },
            k <= n,
            n >= 4 ==> k >= 3,
            n < 4 ==> k == n,
            t@ == fov_scale_pair(),
            t.wf(),
            three@ == three_pair(),
            three.wf(),
            forall|j: int| 0 <= j < pv.len() ==> pair_wf(#[trigger] pv[j]),
            forall|j: int| 0 <= j < m ==> #[trigger] tmp@[j].wf(),
            passes_defined(pv, k as int + 1),
            forall|j: int|
                0 <= j < m ==> pair_eqv(
                    #[trigger] tmp@[j]@,
                    collapse_state(pv, k as int + 1)[j],
                ),
            project_fits(pv, 4) ==> (forall|j: int|
                0 <= j < m ==> #[trigger] tmp@[j]@ == collapse_state(pv, k as int + 1)[j]),
            n <= 3 ==> (forall|j: int| 0 <= j < n as int ==> tmp@[j] == v@[j]) && (forall|j: int|
                n as int <= j < m ==> tmp@[j]@ == (0int, 1int)),
        decreases k,
    {
        let ghost prev = collapse_state(pv, k as int + 1);
        proof {
            lemma_collapse_state_wf(pv, k as int + 1);
            if project_fits(pv, 4) {
                lemma_project_fits_from(pv, 4, k as int);
                assert(pass_fits(prev, k as int));
                assert(tmp@[k as int - 1]@ == prev[k as int - 1]);
            }
        }
        let divisor = match tmp[k - 1].add(&three) {
            Some(d) => d,
            None => {
                return None;
            },
        };
        proof {
            assert(tmp@[k as int - 1].wf());
            lemma_pair_op_wf(prev[k as int - 1], three_pair());
            lemma_pair_op_wf(tmp@[k as int - 1]@, three_pair());
            lemma_ring_cong(tmp@[k as int - 1]@, three_pair(), prev[k as int - 1], three_pair());
            lemma_eqv_trans(
                divisor@,
                pair_add(tmp@[k as int - 1]@, three_pair()),
                pair_add(prev[k as int - 1], three_pair()),
            );
        }
        let ghost spec_divisor = pair_add(prev[k as int - 1], three_pair());
        proof {
            lemma_order_cong(divisor@, (0int, 1int), spec_divisor, (0int, 1int));
        }
        if divisor.num() == 0 {
            return None;
        }
        proof {
            lemma_eqv_zero(divisor@);
            lemma_eqv_zero(spec_divisor);
            assert(spec_divisor.0 != 0);
        }
        proof {
            if project_fits(pv, 4) {
                assert(divisor@ == spec_divisor);
                assert(pair_fits(pair_div(fov_scale_pair(), spec_divisor)));
            }
        }
        let f = match t.div(&divisor) {
            Some(f) => f,
            None => {
                return None;
            },
        };
        let ghost spec_f = pair_div(fov_scale_pair(), spec_divisor);
        proof {
            lemma_pair_op_wf(fov_scale_pair(), spec_divisor);
            lemma_div_cong(fov_scale_pair(), divisor@, fov_scale_pair(), spec_divisor);
            lemma_eqv_trans(f@, pair_div(fov_scale_pair(), divisor@), spec_f);
        }
        let ghost tsnap = tmp@;
        let mut j: usize = 0;
        while j < tmp.len()
            invariant
                n == v@.len(),
                n >= 4,
                pv == pad3(v@.map_values(|q: Rat| q@)),
                tmp@.len() == m,
                m == pv.len(),
                j <= m,
                f.wf(),
                pair_wf(spec_f),
                pair_eqv(f@, spec_f),
                prev.len() == m,
                forall|jj: int| 0 <= jj < m ==> pair_wf(#[trigger] prev[jj]),
                forall|jj: int| 0 <= jj < m ==> #[trigger] tsnap[jj].wf(),
                forall|jj: int| 0 <= jj < m ==> pair_eqv(#[trigger] tsnap[jj]@, prev[jj]),
                forall|jj: int| j as int <= jj < m ==> #[trigger] tmp@[jj] == tsnap[jj],
                forall|jj: int|
                    0 <= jj < j as int ==> #[trigger] tmp@[jj].wf() && pair_eqv(
                        tmp@[jj]@,
                        pair_mul(spec_f, prev[jj]),
                    ),
                project_fits(pv, 4) ==> f@ == spec_f && pass_fits(prev, k as int) && spec_f
                    == pair_div(fov_scale_pair(), pair_add(prev[k as int - 1], three_pair()))
                    && (forall|jj: int| 0 <= jj < m ==> #[trigger] tsnap[jj]@ == prev[jj])
                    && (forall|jj: int|
                    0 <= jj < j as int ==> #[trigger] tmp@[jj]@ == pair_mul(spec_f, prev[jj])),
            decreases m - j,
        {
            proof {
                if project_fits(pv, 4) {
                    assert(pair_fits(pair_mul(
                        pair_div(
                            fov_scale_pair(),
                            pair_add(prev[k as int - 1], three_pair()),
                        ),
                        prev[j as int],
                    )));
                    assert(tmp@[j as int]@ == prev[j as int]);
                }
            }
            let x = match f.mul(&tmp[j]) {
                Some(x) => x,
                None => {
                    return None;
                },
            };
            proof {
                assert(tsnap[j as int].wf());
                lemma_pair_op_wf(spec_f, prev[j as int]);
                lemma_pair_op_wf(f@, tsnap[j as int]@);
                lemma_ring_cong(f@, tsnap[j as int]@, spec_f, prev[j as int]);
                lemma_eqv_trans(
                    x@,
                    pair_mul(f@, tsnap[j as int]@),
                    pair_mul(spec_f, prev[j as int]),
                );
            }
            let ghost before = tmp@;
            tmp.set(j, x);
            proof {
                assert forall|jj: int| 0 <= jj <= j as int implies #[trigger] tmp@[jj].wf()
                    && pair_eqv(tmp@[jj]@, pair_mul(spec_f, prev[jj])) by {
                    if jj < j as int {
                        assert(tmp@[jj] == before[jj]);
                        assert(before[jj].wf());
                        assert(pair_eqv(before[jj]@, pair_mul(spec_f, prev[jj])));
                    } else {
                        assert(tmp@[jj] == x);
                    }
                }
            }
            j += 1;
        }
        proof {
            assert(collapse_state(pv, k as int) == scale_pass(prev, k as int));
            assert forall|jj: int| 0 <= jj < m implies #[trigger] collapse_state(
                pv,
                k as int,
            )[jj] == pair_mul(spec_f, prev[jj]) by {
                assert(scale_pass(prev, k as int)[jj] == pair_mul(spec_f, prev[jj]));
            }
            assert forall|jj: int| 0 <= jj < m implies pair_eqv(
                #[trigger] tmp@[jj]@,
                collapse_state(pv, k as int)[jj],
            ) by {
                assert(tmp@[jj].wf());
                assert(pair_eqv(tmp@[jj]@, pair_mul(spec_f, prev[jj])));
            }
            if project_fits(pv, 4) {
                assert forall|jj: int| 0 <= jj < m implies #[trigger] tmp@[jj]@
                    == collapse_state(pv, k as int)[jj] by {
                    assert(tmp@[jj].wf());
                    assert(tmp@[jj]@ == pair_mul(spec_f, prev[jj]));
                }
            }
        }
        k -= 1;
    }
    proof {
        assert(collapse_state(pv, k as int + 1) == collapse_state(pv, 4));
    }
    let x = tmp[0];
    let y = tmp[1];
    let z = tmp[2];
    Some(Vec3 { x, y, z })
}

} // verus!
