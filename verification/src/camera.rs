//! Orbit camera: spherical coordinates around the origin.
//!
//! The camera keeps a radius, a polar angle and an azimuth angle.  The
//! azimuth is unbounded and wraps only through the trigonometric
//! functions evaluated on it; the polar angle is clamped to a quarter
//! turn either way, and the radius to a small positive floor, so the
//! camera can neither flip over the poles nor reach the origin.  The
//! clamp bounds are this library's exact rational stand-ins for the
//! irrational quarter turn.

use vstd::prelude::*;

use crate::linalg::Vec3;
use crate::rat::lemma_eqv_trans;
use crate::rat::lemma_order_cong;
use crate::rat::lemma_pair_op_wf;
use crate::rat::lemma_ring_cong;
use crate::rat::pair_add;
use crate::rat::pair_eqv;
use crate::rat::pair_fits;
use crate::rat::pair_lt;
use crate::rat::pair_mul;
use crate::rat::pair_neg;
use crate::rat::Rat;

verus! {

/// Rational stand-in for half pi, the polar clamp bound (`355/226`, the
/// half of the classic `355/113` approximation of pi).
pub open spec fn half_pi_pair() -> (int, int) {
    (355int, 226int)
}

/// The smallest radius the camera may reach.
pub open spec fn min_radius_pair() -> (int, int) {
    (1int, 10int)
}

pub struct Camera {
    pub radius: Rat,
    pub polar: Rat,
    pub azimuth: Rat,
}

impl Camera {
    pub open spec fn wf(&self) -> bool {
        self.radius.wf() && self.polar.wf() && self.azimuth.wf()
    }

    /// The default view: radius 4, level polar angle, a quarter turn of
    /// azimuth.
    pub fn new() -> (c: Camera)
        ensures
            c.wf(),
            c.radius@ == (4int, 1int),
            c.polar@ == (0int, 1int),
            c.azimuth@ == half_pi_pair(),
    {
        let azimuth = Rat::from_parts(355, 226);
        let polar = Rat::zero();
        let radius = Rat::from_int(4);
        Camera { radius, polar, azimuth }
    }

    /// Turn around the vertical axis; the angle is unbounded.  `false`
    /// reports that the sum left the machine range, leaving the camera
    /// unchanged.
    pub fn rotate_azimuth(&mut self, delta: Rat) -> (ok: bool)
        requires
            old(self).wf(),
            delta.wf(),
        ensures
            final(self).wf(),
            ok ==> pair_eqv(final(self).azimuth@, pair_add(old(self).azimuth@, delta@)),
            ok ==> final(self).radius == old(self).radius && final(self).polar == old(
                self,
            ).polar,
            !ok ==> *final(self) == *old(self),
            pair_fits(pair_add(old(self).azimuth@, delta@)) ==> ok,
    {
        match self.azimuth.add(&delta) {
            Some(a) => {
                self.azimuth = a;
                true
            },
            None => false,
        }
    }

    /// Tilt up or down, clamped to a quarter turn either way: looking
    /// straight up or down is the limit, with no flip beyond the poles.
    /// At the limits the bound is stored exactly.
    pub fn rotate_polar(&mut self, delta: Rat) -> (ok: bool)
        requires
            old(self).wf(),
            delta.wf(),
        ensures
            final(self).wf(),
            ok ==> ({
                let s = pair_add(old(self).polar@, delta@);
                if pair_lt(s, pair_neg(half_pi_pair())) {
                    final(self).polar@ == pair_neg(half_pi_pair())
                } else if pair_lt(half_pi_pair(), s) {
                    final(self).polar@ == half_pi_pair()
                } else {
                    pair_eqv(final(self).polar@, s)
                }
            }),
            ok ==> final(self).radius == old(self).radius && final(self).azimuth == old(
                self,
            ).azimuth,
            !ok ==> *final(self) == *old(self),
            pair_fits(pair_add(old(self).polar@, delta@)) ==> ok,
    {
        let s = match self.polar.add(&delta) {
            Some(s) => s,
            None => return false,
        };
        let lo = Rat::from_parts(-355, 226);
        let hi = Rat::from_parts(355, 226);
        proof {
            lemma_pair_op_wf(old(self).polar@, delta@);
            lemma_order_cong(
                s@,
                (-355int, 226int),
                pair_add(old(self).polar@, delta@),
                (-355int, 226int),
            );
            lemma_order_cong(
                (355int, 226int),
                s@,
                (355int, 226int),
                pair_add(old(self).polar@, delta@),
            );
        }
        if s.lt(&lo) {
            self.polar = lo;
        } else if hi.lt(&s) {
            self.polar = hi;
        } else {
            self.polar = s;
        }
        true
    }

    /// Move toward or away from the origin; the radius never goes below
    /// its floor, which at the limit is stored exactly.
    pub fn zoom(&mut self, delta: Rat) -> (ok: bool)
        requires
            old(self).wf(),
            delta.wf(),
        ensures
            final(self).wf(),
            ok ==> ({
                let s = pair_add(old(self).radius@, delta@);
                if pair_lt(s, min_radius_pair()) {
                    final(self).radius@ == min_radius_pair()
                } else {
                    pair_eqv(final(self).radius@, s)
                }
            }),
            ok ==> final(self).polar == old(self).polar && final(self).azimuth == old(
                self,
            ).azimuth,
            !ok ==> *final(self) == *old(self),
            pair_fits(pair_add(old(self).radius@, delta@)) ==> ok,
    {
        let s = match self.radius.add(&delta) {
            Some(s) => s,
            None => return false,
        };
        let floor = Rat::from_parts(1, 10);
        proof {
            lemma_pair_op_wf(old(self).radius@, delta@);
            lemma_order_cong(
                s@,
                (1int, 10int),
                pair_add(old(self).radius@, delta@),
                (1int, 10int),
            );
        }
        if s.lt(&floor) {
            self.radius = floor;
        } else {
            self.radius = s;
        }
        true
    }

    /// The eye position: the spherical-to-Cartesian formula with the
    /// vertical axis as the polar axis.  The trigonometric values of the
    /// two angles have no exact rational form, so the caller evaluates
    /// and passes them; the formula itself is exact.
    pub fn eye(&self, sin_polar: Rat, cos_polar: Rat, sin_azimuth: Rat, cos_azimuth: Rat) -> (r:
        Option<Vec3>)
        requires
            self.wf(),
            sin_polar.wf(),
            cos_polar.wf(),
            sin_azimuth.wf(),
            cos_azimuth.wf(),
        ensures
            r matches Some(p) ==> {
                &&& p.wf()
                &&& pair_eqv(
                    p.x@,
                    pair_mul(pair_mul(self.radius@, cos_polar@), cos_azimuth@),
                )
                &&& pair_eqv(p.y@, pair_mul(self.radius@, sin_polar@))
                &&& pair_eqv(
                    p.z@,
                    pair_mul(pair_mul(self.radius@, cos_polar@), sin_azimuth@),
                )
            },
            pair_fits(pair_mul(self.radius@, cos_polar@)) && pair_fits(
                pair_mul(pair_mul(self.radius@, cos_polar@), cos_azimuth@),
            ) && pair_fits(pair_mul(self.radius@, sin_polar@)) && pair_fits(
                pair_mul(pair_mul(self.radius@, cos_polar@), sin_azimuth@),
            ) ==> r is Some,
    {
        let rc = match self.radius.mul(&cos_polar) {
            Some(v) => v,
            None => return None,
        };
        let x = match rc.mul(&cos_azimuth) {
            Some(v) => v,
            None => return None,
        };
        let y = match self.radius.mul(&sin_polar) {
            Some(v) => v,
            None => return None,
        };
        let z = match rc.mul(&sin_azimuth) {
            Some(v) => v,
            None => return None,
        };
        proof {
            let rcs = pair_mul(self.radius@, cos_polar@);
            lemma_pair_op_wf(self.radius@, cos_polar@);
            lemma_pair_op_wf(rc@, cos_azimuth@);
            lemma_pair_op_wf(rcs, cos_azimuth@);
            lemma_pair_op_wf(rc@, sin_azimuth@);
            lemma_pair_op_wf(rcs, sin_azimuth@);
            lemma_ring_cong(rc@, cos_azimuth@, rcs, cos_azimuth@);
            lemma_eqv_trans(x@, pair_mul(rc@, cos_azimuth@), pair_mul(rcs, cos_azimuth@));
            lemma_ring_cong(rc@, sin_azimuth@, rcs, sin_azimuth@);
            lemma_eqv_trans(z@, pair_mul(rc@, sin_azimuth@), pair_mul(rcs, sin_azimuth@));
        }
        Some(Vec3 { x, y, z })
    }
}

} // verus!
