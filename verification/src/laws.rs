//! Library-wide theorems: facts that relate several functions of the
//! geometry core, stated once and proved for all inputs.

use vstd::prelude::*;

use crate::cube::base_pattern;
use crate::cube::corner_bits;
use crate::cube::dist2;
use crate::cube::face_matches;
use crate::cube::get_bit;
use crate::cube::insert_zero_bit;
use crate::cube::lemma_insert_zero_bit;
use crate::cube::lemma_set_bit;
use crate::cube::num_faces;
use crate::cube::picked;
use crate::cube::pow2;
use crate::cube::signs_of;
use crate::cube::tri_before;
use crate::cube::unskip;
use crate::cube::Face;
use crate::linalg::collapse_state;
use crate::linalg::lemma_collapse_state_wf;
use crate::linalg::pad3;
use crate::linalg::passes_defined;
use crate::linalg::trip_eqv;
use crate::linalg::Triple;
use crate::linalg::Vec3;
use crate::rat::lemma_eqv_trans;
use crate::rat::pair_eqv;
use crate::rat::pair_lt;
use crate::rat::pair_wf;

verus! {

/// Twice the pair count below `k` is `k * (2n - k - 1)`.
proof fn lemma_tri_partial(k: int, n: int)
    requires
        0 <= k <= n,
    ensures
        2 * tri_before(k, n) == k * (2 * n - k - 1),
    decreases k,
{
    if k > 0 {
        lemma_tri_partial(k - 1, n);
        assert((k - 1) * (2 * n - k) + 2 * (n - k) == k * (2 * n - k - 1)) by (nonlinear_arith);
    }
}

/// Facet count law: building an `n`-cube produces exactly
/// `C(n,2) * 2^(n-2)` facets, the count `Cube::new` promises.
pub proof fn lemma_facet_count(n: int)
    requires
        2 <= n,
    ensures
        num_faces(n) == (n * (n - 1) / 2) * pow2((n - 2) as nat),
{
    lemma_tri_partial(n, n);
    assert(2 * tri_before(n, n) == n * (n - 1));
}

/// A coordinate selected by a vertex pattern is positive exactly where
/// the pattern bit is set, for any positive size.
pub proof fn lemma_sign_reads_bit(bits: u32, n: int, size: (int, int), j: int)
    requires
        pair_wf(size),
        pair_lt((0int, 1int), size),
        0 <= j < n,
    ensures
        pair_lt((0int, 1int), signs_of(bits, n, size)[j]) == get_bit(bits, j as u32),
{
}

/// Corner sign invariant: for every generated facet, each of the four
/// corners agrees with the facet's recorded fixed-axis list at every
/// axis that was held fixed, and the corners take all four sign
/// combinations at the two free axes, in the order bottom-left,
/// bottom-right, top-left, top-right.
pub proof fn lemma_corner_sign_invariant(
    f: Face,
    names: Seq<Seq<char>>,
    size: (int, int),
    loc: u32,
    d0: u32,
    d1: u32,
)
    requires
        names.len() <= 30,
        (d1 as int) < names.len() as int,
        d0 < d1,
        pair_wf(size),
        pair_lt((0int, 1int), size),
        face_matches(f, names, size, d0 as int, d1 as int, loc as int),
    ensures
        forall|j: int, c: int|
            #![trigger corner_bits(base_pattern(loc, d0, d1), c, d0, d1), f.dims@[j]]
            0 <= j < names.len() - 2 && 0 <= c < 4 ==> pair_lt(
                (0int, 1int),
                signs_of(
                    corner_bits(base_pattern(loc, d0, d1), c, d0, d1),
                    names.len() as int,
                    size,
                )[unskip(j, d0 as int, d1 as int)],
            ) == f.dims@[j].1,
        forall|c: int|
            0 <= c < 4 ==> pair_lt(
                (0int, 1int),
                signs_of(
                    #[trigger] corner_bits(base_pattern(loc, d0, d1), c, d0, d1),
                    names.len() as int,
                    size,
                )[d0 as int],
            ) == (c == 1 || c == 3) && pair_lt(
                (0int, 1int),
                signs_of(
                    corner_bits(base_pattern(loc, d0, d1), c, d0, d1),
                    names.len() as int,
                    size,
                )[d1 as int],
            ) == (c == 2 || c == 3),
{
    let n = names.len() as int;
    let b1 = insert_zero_bit(loc, d0);
    let base = base_pattern(loc, d0, d1);
    lemma_insert_zero_bit(loc, d0);
    lemma_insert_zero_bit(b1, d1);
    assert(get_bit(base, d0) == false);
    assert(get_bit(base, d1) == false);
    lemma_set_bit(base, d0);
    lemma_set_bit(base, d1);
    lemma_set_bit(base | (1u32 << d0), d1);
    assert forall|c: int, j: u32|
        #![trigger corner_bits(base, c, d0, d1), get_bit(base, j)]
        0 <= c < 4 && (j as int) < n && j != d0 && j != d1 implies get_bit(
        corner_bits(base, c, d0, d1),
        j,
    ) == get_bit(base, j) by {
        if c == 0 {
            assert(corner_bits(base, c, d0, d1) == base);
        } else if c == 1 {
            assert(corner_bits(base, c, d0, d1) == base | (1u32 << d0));
        } else if c == 2 {
            assert(corner_bits(base, c, d0, d1) == base | (1u32 << d1));
        } else {
            assert(corner_bits(base, c, d0, d1) == (base | (1u32 << d0)) | (1u32 << d1));
        }
    }
    assert forall|c: int|
        0 <= c < 4 implies get_bit(#[trigger] corner_bits(base, c, d0, d1), d0) == (c == 1 || c
        == 3) && get_bit(corner_bits(base, c, d0, d1), d1) == (c == 2 || c == 3) by {
        if c == 0 {
            assert(corner_bits(base, c, d0, d1) == base);
        } else if c == 1 {
            assert(corner_bits(base, c, d0, d1) == base | (1u32 << d0));
        } else if c == 2 {
            assert(corner_bits(base, c, d0, d1) == base | (1u32 << d1));
        } else {
            assert(corner_bits(base, c, d0, d1) == (base | (1u32 << d0)) | (1u32 << d1));
        }
    }
    assert forall|j: int, c: int|
        #![trigger corner_bits(base, c, d0, d1), f.dims@[j]]
        0 <= j < names.len() - 2 && 0 <= c < 4 implies pair_lt(
        (0int, 1int),
        signs_of(corner_bits(base, c, d0, d1), n, size)[unskip(j, d0 as int, d1 as int)],
    ) == f.dims@[j].1 by {
        let u = unskip(j, d0 as int, d1 as int);
        assert(0 <= u < n);
        assert(u != d0 as int && u != d1 as int);
        lemma_sign_reads_bit(corner_bits(base, c, d0, d1), n, size, u);
        lemma_sign_reads_bit(base, n, size, u);
        assert(get_bit(corner_bits(base, c, d0, d1), u as u32) == get_bit(base, u as u32));
        assert(f.dims@[j].1 == pair_lt((0int, 1int), signs_of(base, n, size)[u]));
    }
    assert forall|c: int|
        0 <= c < 4 implies pair_lt(
        (0int, 1int),
        signs_of(#[trigger] corner_bits(base, c, d0, d1), n, size)[d0 as int],
    ) == (c == 1 || c == 3) && pair_lt(
        (0int, 1int),
        signs_of(corner_bits(base, c, d0, d1), n, size)[d1 as int],
    ) == (c == 2 || c == 3) by {
        lemma_sign_reads_bit(corner_bits(base, c, d0, d1), n, size, d0 as int);
        lemma_sign_reads_bit(corner_bits(base, c, d0, d1), n, size, d1 as int);
    }
}

/// Projection determinism: the projected point is a function of the
/// input point's value alone.  Any two results that satisfy `project`'s
/// contract for the same point denote the same 3-dimensional point.
pub proof fn lemma_project_deterministic(s: Seq<(int, int)>, p1: Vec3, p2: Vec3)
    requires
        forall|i: int| 0 <= i < s.len() ==> pair_wf(#[trigger] s[i]),
        passes_defined(pad3(s), 4),
        p1.wf(),
        p2.wf(),
        pair_eqv(p1.x@, collapse_state(pad3(s), 4)[0]),
        pair_eqv(p1.y@, collapse_state(pad3(s), 4)[1]),
        pair_eqv(p1.z@, collapse_state(pad3(s), 4)[2]),
        pair_eqv(p2.x@, collapse_state(pad3(s), 4)[0]),
        pair_eqv(p2.y@, collapse_state(pad3(s), 4)[1]),
        pair_eqv(p2.z@, collapse_state(pad3(s), 4)[2]),
    ensures
        trip_eqv(p1@, p2@),
{
    let pv = pad3(s);
    assert(forall|i: int| 0 <= i < pv.len() ==> pair_wf(#[trigger] pv[i]));
    lemma_collapse_state_wf(pv, 4);
    let fin = collapse_state(pv, 4);
    assert(fin.len() >= 3);
    lemma_eqv_trans(p1.x@, fin[0], p2.x@);
    lemma_eqv_trans(p1.y@, fin[1], p2.y@);
    lemma_eqv_trans(p1.z@, fin[2], p2.z@);
}

/// Picking is nearest-first: within one picked intersection list, a hit
/// strictly nearer the ray origin stands strictly earlier, whatever the
/// facets' generation order.
pub proof fn lemma_pick_nearest_first(
    faces: Seq<Face>,
    origin: Triple,
    dir: Triple,
    v: Seq<(Vec3, Face)>,
    order: Seq<int>,
    i: int,
    j: int,
)
    requires
        picked(faces, origin, dir, v, order),
        0 <= i < order.len(),
        0 <= j < order.len(),
        pair_lt(
            dist2(origin, faces[order[i]].hit_of(origin, dir)),
            dist2(origin, faces[order[j]].hit_of(origin, dir)),
        ),
    ensures
        i < j,
{
    if i == j {
        assert(false);
    } else if j < i {
        assert(pair_lt(
            dist2(origin, faces[order[j]].hit_of(origin, dir)),
            dist2(origin, faces[order[i]].hit_of(origin, dir)),
        ) || (pair_eqv(
            dist2(origin, faces[order[j]].hit_of(origin, dir)),
            dist2(origin, faces[order[i]].hit_of(origin, dir)),
        ) && order[j] < order[i]));
        assert(false);
    }
}

} // verus!
