//! Exact rational scalar used for every coordinate in the geometry core.
//!
//! A `Rat` holds an `i64` numerator and a positive `i64` denominator.
//! Every arithmetic operation computes through `i128` intermediates, so
//! comparisons are always exact; a result whose reduced form still does
//! not fit back into `i64` is reported as `None` rather than rounded.
//!
//! Contracts speak of a rational through its view, a pair `(int, int)` of
//! numerator and denominator, compared with cross-multiplication
//! (`pair_eqv`), so a clause never depends on which representative of a
//! value a function happened to produce.

use vstd::prelude::*;

verus! {

/// A pair stands for the rational `p.0 / p.1`; it is well formed when the
/// denominator is positive.
pub open spec fn pair_wf(p: (int, int)) -> bool {
    p.1 >= 1
}

/// Two pairs denote the same rational exactly when cross-multiplication
/// agrees.
pub open spec fn pair_eqv(a: (int, int), b: (int, int)) -> bool {
    a.0 * b.1 == b.0 * a.1
}

pub open spec fn pair_add(a: (int, int), b: (int, int)) -> (int, int) {
    (a.0 * b.1 + b.0 * a.1, a.1 * b.1)
}

pub open spec fn pair_sub(a: (int, int), b: (int, int)) -> (int, int) {
    (a.0 * b.1 - b.0 * a.1, a.1 * b.1)
}

pub open spec fn pair_mul(a: (int, int), b: (int, int)) -> (int, int) {
    (a.0 * b.0, a.1 * b.1)
}

/// Division keeps the denominator positive by moving the divisor's sign
/// into the numerator.
pub open spec fn pair_div(a: (int, int), b: (int, int)) -> (int, int) {
    if b.0 >= 0 {
        (a.0 * b.1, a.1 * b.0)
    } else {
        (-(a.0 * b.1), -(a.1 * b.0))
    }
}

pub open spec fn pair_neg(a: (int, int)) -> (int, int) {
    (-a.0, a.1)
}

/// The representation a subtraction keeps when both operands already
/// share a denominator: the difference stays over that denominator
/// instead of being cross-multiplied.
pub open spec fn pair_sub_c(a: (int, int), b: (int, int)) -> (int, int) {
    if a.1 == b.1 {
        (a.0 - b.0, a.1)
    } else {
        pair_sub(a, b)
    }
}

/// Strict order on well-formed pairs.
pub open spec fn pair_lt(a: (int, int), b: (int, int)) -> bool {
    a.0 * b.1 < b.0 * a.1
}

pub open spec fn pair_le(a: (int, int), b: (int, int)) -> bool {
    a.0 * b.1 <= b.0 * a.1
}

/// A pair that can be stored in a `Rat` without reduction.
pub open spec fn pair_fits(p: (int, int)) -> bool {
    &&& -(i64::MAX as int) <= p.0 <= i64::MAX as int
    &&& 1 <= p.1 <= i64::MAX as int
}

/// Product of an `i64`-bounded factor with a positive `i64`-bounded
/// factor stays within the square of `i64::MAX`, hence within `i128`.
proof fn lemma_prod_bound(a: int, b: int)
    by (nonlinear_arith)
    requires
        -(i64::MAX as int) <= a <= i64::MAX as int,
        0 <= b <= i64::MAX as int,
    ensures
        -(i64::MAX as int) * (i64::MAX as int) <= a * b <= (i64::MAX as int) * (i64::MAX as int),
{
}

/// Product of two `i64`-bounded factors of either sign stays within the
/// square of `i64::MAX`.
proof fn lemma_prod_bound2(a: int, b: int)
    by (nonlinear_arith)
    requires
        -(i64::MAX as int) <= a <= i64::MAX as int,
        -(i64::MAX as int) <= b <= i64::MAX as int,
    ensures
        -((i64::MAX as int) * (i64::MAX as int)) <= a * b <= (i64::MAX as int) * (i64::MAX as int),
{
}

/// Product of two positive `i64`-bounded factors is positive and within
/// the square of `i64::MAX`.
proof fn lemma_den_prod(a: int, b: int)
    by (nonlinear_arith)
    requires
        1 <= a <= i64::MAX as int,
        1 <= b <= i64::MAX as int,
    ensures
        1 <= a * b <= (i64::MAX as int) * (i64::MAX as int),
{
}

/// Dividing numerator and denominator by an exact common factor keeps the
/// value: `a/g / (d/g) == a/d`.
proof fn lemma_reduce_eqv(a: int, d: int, g: int, a2: int, d2: int)
    by (nonlinear_arith)
    requires
        a == g * a2,
        d == g * d2,
    ensures
        a2 * d == a * d2,
{
}

/// Equivalence of pairs is transitive across a well-formed middle pair.
proof fn lemma_eqv_trans_raw(a0: int, a1: int, b0: int, b1: int, c0: int, c1: int)
    by (nonlinear_arith)
    requires
        a1 >= 1,
        b1 >= 1,
        c1 >= 1,
        a0 * b1 == b0 * a1,
        b0 * c1 == c0 * b1,
    ensures
        a0 * c1 == c0 * a1,
{
}

pub proof fn lemma_eqv_trans(a: (int, int), b: (int, int), c: (int, int))
    requires
        pair_wf(a),
        pair_wf(b),
        pair_wf(c),
        pair_eqv(a, b),
        pair_eqv(b, c),
    ensures
        pair_eqv(a, c),
{
    lemma_eqv_trans_raw(a.0, a.1, b.0, b.1, c.0, c.1);
}

proof fn lemma_ring_cong_raw(a0: int, a1: int, b0: int, b1: int, c0: int, c1: int, d0: int, d1: int)
    requires
        a0 * c1 == c0 * a1,
        b0 * d1 == d0 * b1,
    ensures
        (a0 * b1 + b0 * a1) * (c1 * d1) == (c0 * d1 + d0 * c1) * (a1 * b1),
{
    assert((a0 * b1) * (c1 * d1) == (a0 * c1) * (b1 * d1)) by (nonlinear_arith);
    assert((c0 * a1) * (b1 * d1) == (c0 * d1) * (a1 * b1)) by (nonlinear_arith);
    assert((b0 * a1) * (c1 * d1) == (b0 * d1) * (a1 * c1)) by (nonlinear_arith);
    assert((d0 * b1) * (a1 * c1) == (d0 * c1) * (a1 * b1)) by (nonlinear_arith);
    assert((a0 * b1 + b0 * a1) * (c1 * d1) == (a0 * b1) * (c1 * d1) + (b0 * a1) * (c1 * d1))
        by (nonlinear_arith);
    assert((c0 * d1) * (a1 * b1) + (d0 * c1) * (a1 * b1) == (c0 * d1 + d0 * c1) * (a1 * b1))
        by (nonlinear_arith);
}

proof fn lemma_sub_cong_raw(a0: int, a1: int, b0: int, b1: int, c0: int, c1: int, d0: int, d1: int)
    requires
        a0 * c1 == c0 * a1,
        b0 * d1 == d0 * b1,
    ensures
        (a0 * b1 - b0 * a1) * (c1 * d1) == (c0 * d1 - d0 * c1) * (a1 * b1),
{
    assert((a0 * b1) * (c1 * d1) == (a0 * c1) * (b1 * d1)) by (nonlinear_arith);
    assert((c0 * a1) * (b1 * d1) == (c0 * d1) * (a1 * b1)) by (nonlinear_arith);
    assert((b0 * a1) * (c1 * d1) == (b0 * d1) * (a1 * c1)) by (nonlinear_arith);
    assert((d0 * b1) * (a1 * c1) == (d0 * c1) * (a1 * b1)) by (nonlinear_arith);
    assert((a0 * b1 - b0 * a1) * (c1 * d1) == (a0 * b1) * (c1 * d1) - (b0 * a1) * (c1 * d1))
        by (nonlinear_arith);
    assert((c0 * d1) * (a1 * b1) - (d0 * c1) * (a1 * b1) == (c0 * d1 - d0 * c1) * (a1 * b1))
        by (nonlinear_arith);
}

proof fn lemma_mul_cong_raw(a0: int, a1: int, b0: int, b1: int, c0: int, c1: int, d0: int, d1: int)
    requires
        a0 * c1 == c0 * a1,
        b0 * d1 == d0 * b1,
    ensures
        (a0 * b0) * (c1 * d1) == (c0 * d0) * (a1 * b1),
{
    assert((a0 * b0) * (c1 * d1) == (a0 * c1) * (b0 * d1)) by (nonlinear_arith);
    assert((c0 * a1) * (d0 * b1) == (c0 * d0) * (a1 * b1)) by (nonlinear_arith);
}

/// Replacing both operands of an addition by equivalent pairs gives an
/// equivalent sum.
pub proof fn lemma_ring_cong(a: (int, int), b: (int, int), c: (int, int), d: (int, int))
    requires
        pair_eqv(a, c),
        pair_eqv(b, d),
    ensures
        pair_eqv(pair_add(a, b), pair_add(c, d)),
        pair_eqv(pair_sub(a, b), pair_sub(c, d)),
        pair_eqv(pair_mul(a, b), pair_mul(c, d)),
{
    lemma_ring_cong_raw(a.0, a.1, b.0, b.1, c.0, c.1, d.0, d.1);
    lemma_sub_cong_raw(a.0, a.1, b.0, b.1, c.0, c.1, d.0, d.1);
    lemma_mul_cong_raw(a.0, a.1, b.0, b.1, c.0, c.1, d.0, d.1);
}

proof fn lemma_order_trans_raw1(a0: int, a1: int, b0: int, b1: int, c0: int, c1: int)
    by (nonlinear_arith)
    requires
        a1 >= 1,
        b1 >= 1,
        c1 >= 1,
        a0 * b1 < b0 * a1,
        b0 * c1 <= c0 * b1,
    ensures
        a0 * c1 < c0 * a1,
{
}

proof fn lemma_order_trans_raw2(a0: int, a1: int, b0: int, b1: int, c0: int, c1: int)
    by (nonlinear_arith)
    requires
        a1 >= 1,
        b1 >= 1,
        c1 >= 1,
        a0 * b1 <= b0 * a1,
        b0 * c1 < c0 * b1,
    ensures
        a0 * c1 < c0 * a1,
{
}

proof fn lemma_order_trans_raw3(a0: int, a1: int, b0: int, b1: int, c0: int, c1: int)
    by (nonlinear_arith)
    requires
        a1 >= 1,
        b1 >= 1,
        c1 >= 1,
        a0 * b1 <= b0 * a1,
        b0 * c1 <= c0 * b1,
    ensures
        a0 * c1 <= c0 * a1,
{
}

/// The order on well-formed pairs is transitive, strictly so when
/// either step is strict.
pub proof fn lemma_order_trans(a: (int, int), b: (int, int), c: (int, int))
    requires
        pair_wf(a),
        pair_wf(b),
        pair_wf(c),
    ensures
        pair_lt(a, b) && pair_le(b, c) ==> pair_lt(a, c),
        pair_le(a, b) && pair_lt(b, c) ==> pair_lt(a, c),
        pair_le(a, b) && pair_le(b, c) ==> pair_le(a, c),
{
    if pair_lt(a, b) && pair_le(b, c) {
        lemma_order_trans_raw1(a.0, a.1, b.0, b.1, c.0, c.1);
    }
    if pair_le(a, b) && pair_lt(b, c) {
        lemma_order_trans_raw2(a.0, a.1, b.0, b.1, c.0, c.1);
    }
    if pair_le(a, b) && pair_le(b, c) {
        lemma_order_trans_raw3(a.0, a.1, b.0, b.1, c.0, c.1);
    }
}

proof fn lemma_order_cong_raw(a0: int, a1: int, b0: int, b1: int, c0: int, c1: int, d0: int, d1: int)
    by (nonlinear_arith)
    requires
        a1 >= 1,
        b1 >= 1,
        c1 >= 1,
        d1 >= 1,
        a0 * c1 == c0 * a1,
        b0 * d1 == d0 * b1,
    ensures
        (a0 * b1 <= b0 * a1) == (c0 * d1 <= d0 * c1),
        (a0 * b1 < b0 * a1) == (c0 * d1 < d0 * c1),
{
}

/// Comparisons of pairs respect equivalence of their operands.
pub proof fn lemma_order_cong(a: (int, int), b: (int, int), c: (int, int), d: (int, int))
    requires
        pair_wf(a),
        pair_wf(b),
        pair_wf(c),
        pair_wf(d),
        pair_eqv(a, c),
        pair_eqv(b, d),
    ensures
        pair_le(a, b) == pair_le(c, d),
        pair_lt(a, b) == pair_lt(c, d),
        pair_eqv(a, b) == pair_eqv(c, d),
{
    lemma_order_cong_raw(a.0, a.1, b.0, b.1, c.0, c.1, d.0, d.1);
}

proof fn lemma_div_cong_raw(a0: int, a1: int, b0: int, b1: int, c0: int, c1: int, d0: int, d1: int)
    requires
        a1 >= 1,
        b1 >= 1,
        c1 >= 1,
        d1 >= 1,
        b0 != 0,
        d0 != 0,
        a0 * c1 == c0 * a1,
        b0 * d1 == d0 * b1,
    ensures
        b0 > 0 ==> d0 > 0,
        b0 < 0 ==> d0 < 0,
        (a0 * b1) * (c1 * d0) == (c0 * d1) * (a1 * b0),
{
    assert(b0 > 0 ==> d0 > 0) by (nonlinear_arith)
        requires
            b1 >= 1,
            d1 >= 1,
            d0 != 0,
            b0 * d1 == d0 * b1,
    ;
    assert(b0 < 0 ==> d0 < 0) by (nonlinear_arith)
        requires
            b1 >= 1,
            d1 >= 1,
            d0 != 0,
            b0 * d1 == d0 * b1,
    ;
    assert((a0 * b1) * (c1 * d0) == (a0 * c1) * (d0 * b1)) by (nonlinear_arith);
    assert((c0 * a1) * (b0 * d1) == (c0 * d1) * (a1 * b0)) by (nonlinear_arith);
}

/// Division by equivalent, non-zero divisors gives equivalent quotients.
pub proof fn lemma_div_cong(a: (int, int), b: (int, int), c: (int, int), d: (int, int))
    requires
        pair_wf(a),
        pair_wf(b),
        pair_wf(c),
        pair_wf(d),
        b.0 != 0,
        d.0 != 0,
        pair_eqv(a, c),
        pair_eqv(b, d),
    ensures
        pair_eqv(pair_div(a, b), pair_div(c, d)),
{
    lemma_div_cong_raw(a.0, a.1, b.0, b.1, c.0, c.1, d.0, d.1);
    if b.0 > 0 {
        assert(pair_div(a, b) == (a.0 * b.1, a.1 * b.0));
        assert(pair_div(c, d) == (c.0 * d.1, c.1 * d.0));
    } else {
        assert(pair_div(a, b) == (-(a.0 * b.1), -(a.1 * b.0)));
        assert(pair_div(c, d) == (-(c.0 * d.1), -(c.1 * d.0)));
        assert((-(a.0 * b.1)) * (-(c.1 * d.0)) == (-(c.0 * d.1)) * (-(a.1 * b.0))) by (nonlinear_arith)
            requires
                (a.0 * b.1) * (c.1 * d.0) == (c.0 * d.1) * (a.1 * b.0),
        ;
    }
}

/// The arithmetic on pairs preserves well-formedness; division needs a
/// divisor with non-zero numerator.
pub proof fn lemma_pair_op_wf(a: (int, int), b: (int, int))
    requires
        pair_wf(a),
        pair_wf(b),
    ensures
        pair_wf(pair_add(a, b)),
        pair_wf(pair_sub(a, b)),
        pair_wf(pair_mul(a, b)),
        b.0 != 0 ==> pair_wf(pair_div(a, b)),
{
    assert(a.1 * b.1 >= 1) by (nonlinear_arith)
        requires
            a.1 >= 1,
            b.1 >= 1,
    ;
    if b.0 >= 1 {
        assert(a.1 * b.0 >= 1) by (nonlinear_arith)
            requires
                a.1 >= 1,
                b.0 >= 1,
        ;
    }
    if b.0 <= -1 {
        assert(-(a.1 * b.0) >= 1) by (nonlinear_arith)
            requires
                a.1 >= 1,
                b.0 <= -1,
        ;
    }
}

/// A pair denotes zero exactly when its numerator is zero.
pub proof fn lemma_eqv_zero(a: (int, int))
    ensures
        pair_eqv(a, (0int, 1int)) == (a.0 == 0),
{
    assert(a.0 * 1int == a.0) by (nonlinear_arith);
    assert(0int * a.1 == 0int) by (nonlinear_arith);
}

/// An exact rational number.
#[derive(Clone, Copy, Debug)]
pub struct Rat {
    num: i64,
    den: i64,
}

impl View for Rat {
    type V = (int, int);

    closed spec fn view(&self) -> (int, int) {
        (self.num as int, self.den as int)
    }
}

impl Rat {
    /// Valid rationals have a positive denominator, and a numerator that
    /// can be negated without leaving `i64`.
    pub open spec fn wf(&self) -> bool {
        &&& 1 <= self@.1 <= i64::MAX as int
        &&& -(i64::MAX as int) <= self@.0 <= i64::MAX as int
    }

    pub fn num(&self) -> (r: i64)
        ensures
            r as int == self@.0,
    {
        self.num
    }

    pub fn den(&self) -> (r: i64)
        ensures
            r as int == self@.1,
    {
        self.den
    }

    pub fn zero() -> (r: Rat)
        ensures
            r.wf(),
            r@ == (0int, 1int),
    {
        Rat { num: 0, den: 1 }
    }

    pub fn from_int(i: i64) -> (r: Rat)
        requires
            i > i64::MIN,
        ensures
            r.wf(),
            r@ == (i as int, 1int),
    {
        Rat { num: i, den: 1 }
    }

    pub fn neg(&self) -> (r: Rat)
        requires
            self.wf(),
        ensures
            r.wf(),
            r@ == pair_neg(self@),
    {
        Rat { num: -self.num, den: self.den }
    }

    /// Exact comparison: no rounding is possible, so the result equals the
    /// mathematical order of the two values.
    pub fn lt(&self, other: &Rat) -> (r: bool)
        requires
            self.wf(),
            other.wf(),
        ensures
            r == pair_lt(self@, other@),
    {
        proof {
            lemma_prod_bound(self@.0, other@.1);
            lemma_prod_bound(other@.0, self@.1);
        }
        (self.num as i128) * (other.den as i128) < (other.num as i128) * (self.den as i128)
    }

    pub fn le(&self, other: &Rat) -> (r: bool)
        requires
            self.wf(),
            other.wf(),
        ensures
            r == pair_le(self@, other@),
    {
        proof {
            lemma_prod_bound(self@.0, other@.1);
            lemma_prod_bound(other@.0, self@.1);
        }
        (self.num as i128) * (other.den as i128) <= (other.num as i128) * (self.den as i128)
    }

    pub fn eqv(&self, other: &Rat) -> (r: bool)
        requires
            self.wf(),
            other.wf(),
        ensures
            r == pair_eqv(self@, other@),
    {
        proof {
            lemma_prod_bound(self@.0, other@.1);
            lemma_prod_bound(other@.0, self@.1);
        }
        (self.num as i128) * (other.den as i128) == (other.num as i128) * (self.den as i128)
    }

    /// Exact constructor for a numerator and positive denominator that
    /// already fit; the representation is kept as given.
    pub fn from_parts(num: i64, den: i64) -> (r: Rat)
        requires
            den >= 1,
            num > i64::MIN,
        ensures
            r.wf(),
            r@ == (num as int, den as int),
    {
        Rat { num, den }
    }

    /// General constructor; a zero denominator has no value to denote.
    pub fn new(num: i64, den: i64) -> (r: Option<Rat>)
        ensures
            den == 0 ==> r is None,
            r matches Some(v) ==> v.wf() && pair_eqv(v@, (num as int, den as int)),
            den != 0 && num > i64::MIN && den > i64::MIN ==> r is Some,
    {
        if den == 0 {
            None
        } else if den > 0 {
            fit(num as i128, den as i128)
        } else {
            let r = fit(-(num as i128), -(den as i128));
            proof {
                match r {
                    Some(v) => {
                        assert(v@.0 * (-(den as int)) == -(v@.0 * (den as int)))
                            by (nonlinear_arith);
                        assert((-(num as int)) * v@.1 == -((num as int) * v@.1))
                            by (nonlinear_arith);
                    },
                    None => {},
                }
            }
            r
        }
    }

    pub fn add(&self, other: &Rat) -> (r: Option<Rat>)
        requires
            self.wf(),
            other.wf(),
        ensures
            r matches Some(v) ==> v.wf() && pair_eqv(v@, pair_add(self@, other@)),
            pair_fits(pair_add(self@, other@)) ==> (r matches Some(v) && v@ == pair_add(self@, other@)),
    {
        proof {
            lemma_prod_bound(self@.0, other@.1);
            lemma_prod_bound(other@.0, self@.1);
            lemma_den_prod(self@.1, other@.1);
        }
        let n: i128 = (self.num as i128) * (other.den as i128)
            + (other.num as i128) * (self.den as i128);
        let d: i128 = (self.den as i128) * (other.den as i128);
        fit(n, d)
    }

    pub fn sub(&self, other: &Rat) -> (r: Option<Rat>)
        requires
            self.wf(),
            other.wf(),
        ensures
            r matches Some(v) ==> v.wf() && pair_eqv(v@, pair_sub(self@, other@)),
            pair_fits(pair_sub(self@, other@)) ==> (r matches Some(v) && v@ == pair_sub(self@, other@)),
    {
        proof {
            lemma_prod_bound(self@.0, other@.1);
            lemma_prod_bound(other@.0, self@.1);
            lemma_den_prod(self@.1, other@.1);
        }
        let n: i128 = (self.num as i128) * (other.den as i128)
            - (other.num as i128) * (self.den as i128);
        let d: i128 = (self.den as i128) * (other.den as i128);
        fit(n, d)
    }

    /// Difference of two values that share a denominator, kept over that
    /// denominator; the numerators subtract directly, so the result fits
    /// whenever their difference does.
    pub fn sub_samed(&self, other: &Rat) -> (r: Option<Rat>)
        requires
            self.wf(),
            other.wf(),
            self@.1 == other@.1,
        ensures
            r matches Some(v) ==> v.wf() && pair_eqv(v@, pair_sub(self@, other@)),
            -(i64::MAX as int) <= self@.0 - other@.0 <= i64::MAX as int ==> (r matches Some(v)
                && v@ == (self@.0 - other@.0, self@.1)),
    {
        let n: i128 = (self.num as i128) - (other.num as i128);
        let d: i128 = self.den as i128;
        let r = fit(n, d);
        proof {
            if r is Some {
                let v = r.unwrap();
                lemma_pair_op_wf(self@, other@);
                assert((self@.0 - other@.0) * (self@.1 * other@.1) == (self@.0 * other@.1
                    - other@.0 * self@.1) * self@.1) by (nonlinear_arith)
                    requires
                        self@.1 == other@.1,
                ;
                lemma_eqv_trans(v@, (self@.0 - other@.0, self@.1), pair_sub(self@, other@));
            }
        }
        r
    }

    pub fn mul(&self, other: &Rat) -> (r: Option<Rat>)
        requires
            self.wf(),
            other.wf(),
        ensures
            r matches Some(v) ==> v.wf() && pair_eqv(v@, pair_mul(self@, other@)),
            pair_fits(pair_mul(self@, other@)) ==> (r matches Some(v) && v@ == pair_mul(self@, other@)),
    {
        proof {
            lemma_prod_bound2(self@.0, other@.0);
            lemma_den_prod(self@.1, other@.1);
        }
        let n: i128 = (self.num as i128) * (other.num as i128);
        let d: i128 = (self.den as i128) * (other.den as i128);
        fit(n, d)
    }

    /// Exact division; the divisor must denote a non-zero value.
    pub fn div(&self, other: &Rat) -> (r: Option<Rat>)
        requires
            self.wf(),
            other.wf(),
            other@.0 != 0,
        ensures
            r matches Some(v) ==> v.wf() && pair_eqv(v@, pair_div(self@, other@)),
            pair_fits(pair_div(self@, other@)) ==> (r matches Some(v) && v@ == pair_div(self@, other@)),
    {
        proof {
            lemma_prod_bound(self@.0, other@.1);
        }
        if other.num > 0 {
            proof {
                lemma_den_prod(self@.1, other@.0);
            }
            let n: i128 = (self.num as i128) * (other.den as i128);
            let d: i128 = (self.den as i128) * (other.num as i128);
            fit(n, d)
        } else {
            proof {
                lemma_den_prod(self@.1, -other@.0);
                assert(self@.1 * (-other@.0) == -(self@.1 * other@.0)) by (nonlinear_arith);
            }
            let n: i128 = -((self.num as i128) * (other.den as i128));
            let d: i128 = (self.den as i128) * (-(other.num as i128));
            fit(n, d)
        }
    }
}

/// Euclid's algorithm; only termination and positivity matter here, since
/// `fit` checks divisibility of both arguments at run time.
fn gcd_u128(a: u128, b: u128) -> (g: u128)
    requires
        1 <= b,
    ensures
        1 <= g,
{
    let mut x: u128 = a;
    let mut y: u128 = b;
    while y != 0
        invariant
            1 <= x || 1 <= y,
        decreases y,
    {
        let t: u128 = x % y;
        x = y;
        y = t;
    }
    x
}

/// Store the value `n / d` in a `Rat`, reducing by the greatest common
/// divisor when the raw pair does not fit `i64`.
fn fit(n: i128, d: i128) -> (r: Option<Rat>)
    requires
        1 <= d,
        n > i128::MIN,
    ensures
        r matches Some(v) ==> v.wf() && pair_eqv(v@, (n as int, d as int)),
        pair_fits((n as int, d as int)) ==> (r matches Some(v) && v@ == (n as int, d as int)),
{
    if -(i64::MAX as i128) <= n && n <= i64::MAX as i128 && d <= i64::MAX as i128 {
        Some(Rat { num: n as i64, den: d as i64 })
    } else {
        let a: u128 = if n < 0 {
            (-n) as u128
        } else {
            n as u128
        };
        let g: u128 = gcd_u128(a, d as u128);
        if a % g == 0 && (d as u128) % g == 0 {
            let a2: u128 = a / g;
            let d2: u128 = (d as u128) / g;
            if 1 <= d2 && d2 <= i64::MAX as u128 && a2 <= i64::MAX as u128 {
                let num: i64 = if n < 0 {
                    -(a2 as i64)
                } else {
                    a2 as i64
                };
                proof {
                    vstd::arithmetic::div_mod::lemma_fundamental_div_mod(a as int, g as int);
                    vstd::arithmetic::div_mod::lemma_fundamental_div_mod(d as int, g as int);
                    assert(a as int == g as int * (a2 as int));
                    assert(d as int == g as int * (d2 as int));
                    lemma_reduce_eqv(a as int, d as int, g as int, a2 as int, d2 as int);
                    assert((a2 as int) * (d as int) == (a as int) * (d2 as int));
                    if n < 0 {
                        assert(a as int == -(n as int));
                        assert((-(a2 as int)) * (d as int) == -((a2 as int) * (d as int)))
                            by (nonlinear_arith);
                        assert((-(a as int)) * (d2 as int) == -((a as int) * (d2 as int)))
                            by (nonlinear_arith);
                        assert((num as int) * (d as int) == (n as int) * (d2 as int));
                    } else {
                        assert(a as int == n as int);
                    }
                }
                Some(Rat { num, den: d2 as i64 })
            } else {
                None
            }
        } else {
            None
        }
    }
}

} // verus!
