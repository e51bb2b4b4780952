//! Mathematical model of the volume-decomposition algorithm.
//!
//! Every executable function of the engine is proved equal to one of the spec
//! functions below. `hv_rec`, `sweep` and `exclusive_hv` form the mutual
//! recursion of the algorithm itself: the volume of a union of boxes (each box
//! spanning from a point to the reference point) is decomposed by a sweep over
//! the first axis, where each point contributes the part of its box not
//! covered by the points that come after it.

use vstd::prelude::*;

verus! {

/// Distance between two coordinates on one axis, as a mathematical integer.
pub open spec fn axis_gap(a: i64, b: i64) -> int {
    if a >= b {
        a - b
    } else {
        b - a
    }
}

/// Product of the axis gaps over the first `k` axes of the box with opposite
/// corners `pt0` and `pt1`.
pub open spec fn partial_volume(pt0: Seq<i64>, pt1: Seq<i64>, k: int) -> int
    decreases k,
{
    if k <= 0 {
        1
    } else {
        partial_volume(pt0, pt1, k - 1) * axis_gap(pt0[k - 1], pt1[k - 1])
    }
}

/// Volume of the axis-aligned box with opposite corners `pt0` and `pt1`.
pub open spec fn box_volume(pt0: Seq<i64>, pt1: Seq<i64>) -> int {
    partial_volume(pt0, pt1, pt0.len() as int)
}

/// Coordinate-wise maximum of two points: the corner of the intersection of
/// the two boxes that share the reference point as their other corner.
pub open spec fn max_corner(pt0: Seq<i64>, pt1: Seq<i64>) -> Seq<i64> {
    Seq::new(pt0.len(), |i: int| if pt0[i] >= pt1[i] { pt0[i] } else { pt1[i] })
}

/// All points of `pts` share dimension `dim`.
pub open spec fn uniform_dims(pts: Seq<Seq<i64>>, dim: nat) -> bool {
    forall|i: int| 0 <= i < pts.len() ==> (#[trigger] pts[i]).len() == dim
}

/// Non-strict lexicographic order on coordinate sequences. Used as the
/// canonical sort order of a point set: on sets of uniform dimension it is a
/// total order, and sorting by it refines the sort by first coordinate that
/// the sweep step depends on.
pub open spec fn lex_leq(a: Seq<i64>, b: Seq<i64>) -> bool
    decreases a.len(),
{
    if a.len() == 0 {
        true
    } else if b.len() == 0 {
        false
    } else if a[0] < b[0] {
        true
    } else if a[0] > b[0] {
        false
    } else {
        lex_leq(a.drop_first(), b.drop_first())
    }
}

pub open spec fn lex_leq_fn() -> spec_fn(Seq<i64>, Seq<i64>) -> bool {
    |a: Seq<i64>, b: Seq<i64>| lex_leq(a, b)
}

/// The staircase filter keeps a candidate corner only if the most recently
/// kept corner is strictly greater on some axis (so the candidate extends the
/// covered region on that axis).
pub open spec fn keeps(kept: Seq<i64>, c: Seq<i64>) -> bool {
    exists|ax: int| 0 <= ax < kept.len() && kept[ax] > c[ax]
}

/// Intersection corners of `pt`'s box with each box of `pts`.
pub open spec fn intersection_corners(pt: Seq<i64>, pts: Seq<Seq<i64>>) -> Seq<Seq<i64>> {
    Seq::new(pts.len(), |i: int| max_corner(pts[i], pt))
}

/// Staircase filter over a corner sequence, with `kept` the most recently
/// kept corner.
pub open spec fn staircase(kept: Seq<i64>, cs: Seq<Seq<i64>>) -> Seq<Seq<i64>>
    decreases cs.len(),
{
    if cs.len() == 0 {
        Seq::empty()
    } else if keeps(kept, cs[0]) {
        seq![cs[0]] + staircase(cs[0], cs.drop_first())
    } else {
        staircase(kept, cs.drop_first())
    }
}

/// The minimal covering subset of the intersection corners of `pt` against
/// `pts`: the first corner, then whatever the staircase filter keeps.
pub open spec fn limited_points(pt: Seq<i64>, pts: Seq<Seq<i64>>) -> Seq<Seq<i64>> {
    if pts.len() == 0 {
        Seq::empty()
    } else {
        let cs = intersection_corners(pt, pts);
        seq![cs[0]] + staircase(cs[0], cs.drop_first())
    }
}

/// The recursive union-of-boxes volume of `pts` against `ref_pt`: zero for an
/// empty set, the box volume for one point, inclusion-exclusion for two, and
/// the sweep over the first axis for three or more (callers sort `pts` by
/// first coordinate before the sweep case applies).
pub open spec fn hv_rec(pts: Seq<Seq<i64>>, ref_pt: Seq<i64>) -> int
    decreases pts.len(), 3int,
{
    if pts.len() == 1 {
        box_volume(pts[0], ref_pt)
    } else if pts.len() == 2 {
        box_volume(pts[0], ref_pt) + box_volume(pts[1], ref_pt) - box_volume(
            max_corner(pts[0], pts[1]),
            ref_pt,
        )
    } else {
        sweep(pts, ref_pt)
    }
}

/// Sum, over each point of `pts` in order, of the volume it contributes that
/// is not covered by the points after it.
pub open spec fn sweep(pts: Seq<Seq<i64>>, ref_pt: Seq<i64>) -> int
    decreases pts.len(), 2int,
{
    if pts.len() == 0 {
        0
    } else {
        exclusive_hv(pts[0], pts.drop_first(), ref_pt) + sweep(pts.drop_first(), ref_pt)
    }
}

/// Exclusive contribution of `pt` against the points `pts` that follow it:
/// its box volume, minus the union of the boxes of the minimal covering
/// subset of its intersection corners.
pub open spec fn exclusive_hv(pt: Seq<i64>, pts: Seq<Seq<i64>>, ref_pt: Seq<i64>) -> int
    decreases pts.len() + 1, 1int,
    via exclusive_hv_decreases
{
    box_volume(pt, ref_pt) - hv_rec(limited_points(pt, pts), ref_pt)
}

#[via_fn]
proof fn exclusive_hv_decreases(pt: Seq<i64>, pts: Seq<Seq<i64>>, ref_pt: Seq<i64>) {
    lemma_limited_points_len(pt, pts);
}

/// The hypervolume indicator of a point set: the points are brought into the
/// canonical lexicographic order, then the recursive decomposition applies.
pub open spec fn spec_compute(pts: Seq<Seq<i64>>, ref_pt: Seq<i64>) -> int {
    hv_rec(pts.sort_by(lex_leq_fn()), ref_pt)
}

/// Machine-limit side conditions. The algorithm's values are exact integers;
/// these predicates say that every intermediate value of the recursion,
/// including the running products and sums the engine accumulates, fits in
/// `i64`. They mirror the recursion one case to one case.
pub open spec fn box_volume_fits(pt0: Seq<i64>, pt1: Seq<i64>) -> bool {
    &&& forall|i: int|
        0 <= i < pt0.len() ==> #[trigger] axis_gap(pt0[i], pt1[i]) <= i64::MAX
    &&& forall|k: int|
        0 <= k <= pt0.len() ==> #[trigger] partial_volume(pt0, pt1, k) <= i64::MAX
}

pub open spec fn hv_fits(pts: Seq<Seq<i64>>, ref_pt: Seq<i64>) -> bool
    decreases pts.len(), 3int,
{
    if pts.len() == 1 {
        box_volume_fits(pts[0], ref_pt)
    } else if pts.len() == 2 {
        &&& box_volume_fits(pts[0], ref_pt)
        &&& box_volume_fits(pts[1], ref_pt)
        &&& box_volume_fits(max_corner(pts[0], pts[1]), ref_pt)
        &&& box_volume(pts[0], ref_pt) + box_volume(pts[1], ref_pt) <= i64::MAX
    } else {
        sweep_fits(pts, ref_pt)
    }
}

pub open spec fn sweep_fits(pts: Seq<Seq<i64>>, ref_pt: Seq<i64>) -> bool
    decreases pts.len(), 2int,
{
    if pts.len() == 0 {
        true
    } else {
        &&& exclusive_fits(pts[0], pts.drop_first(), ref_pt)
        &&& sweep_fits(pts.drop_first(), ref_pt)
        &&& -i64::MAX <= sweep(pts, ref_pt) <= i64::MAX
    }
}

pub open spec fn exclusive_fits(pt: Seq<i64>, pts: Seq<Seq<i64>>, ref_pt: Seq<i64>) -> bool
    decreases pts.len() + 1, 1int,
    via exclusive_fits_decreases
{
    &&& box_volume_fits(pt, ref_pt)
    &&& hv_fits(limited_points(pt, pts), ref_pt)
    &&& -i64::MAX <= exclusive_hv(pt, pts, ref_pt) <= i64::MAX
}

#[via_fn]
proof fn exclusive_fits_decreases(pt: Seq<i64>, pts: Seq<Seq<i64>>, ref_pt: Seq<i64>) {
    lemma_limited_points_len(pt, pts);
}

/// Machine-limit side condition of the public entry point: the recursion's
/// intermediates fit once the points stand in canonical order.
pub open spec fn compute_fits(pts: Seq<Seq<i64>>, ref_pt: Seq<i64>) -> bool {
    hv_fits(pts.sort_by(lex_leq_fn()), ref_pt)
}

pub proof fn lemma_partial_volume_nonneg(pt0: Seq<i64>, pt1: Seq<i64>, k: int)
    ensures
        partial_volume(pt0, pt1, k) >= 0,
    decreases k,
{
    if k > 0 {
        lemma_partial_volume_nonneg(pt0, pt1, k - 1);
        vstd::arithmetic::mul::lemma_mul_nonnegative(
            partial_volume(pt0, pt1, k - 1),
            axis_gap(pt0[k - 1], pt1[k - 1]),
        );
    }
}

/// The sweep's side condition passes down to every suffix of the point set.
pub proof fn lemma_sweep_fits_skip(pts: Seq<Seq<i64>>, ref_pt: Seq<i64>, k: int)
    requires
        sweep_fits(pts, ref_pt),
        0 <= k <= pts.len(),
    ensures
        sweep_fits(pts.skip(k), ref_pt),
    decreases k,
{
    if k == 0 {
        assert(pts.skip(0) =~= pts);
    } else {
        lemma_sweep_fits_skip(pts, ref_pt, k - 1);
        assert(pts.skip(k - 1).drop_first() =~= pts.skip(k));
    }
}

pub proof fn lemma_staircase_len(kept: Seq<i64>, cs: Seq<Seq<i64>>)
    ensures
        staircase(kept, cs).len() <= cs.len(),
    decreases cs.len(),
{
    if cs.len() == 0 {
    } else if keeps(kept, cs[0]) {
        lemma_staircase_len(cs[0], cs.drop_first());
    } else {
        lemma_staircase_len(kept, cs.drop_first());
    }
}

pub proof fn lemma_limited_points_len(pt: Seq<i64>, pts: Seq<Seq<i64>>)
    ensures
        limited_points(pt, pts).len() <= pts.len(),
{
    if pts.len() > 0 {
        let cs = intersection_corners(pt, pts);
        lemma_staircase_len(cs[0], cs.drop_first());
    }
}

} // verus!
