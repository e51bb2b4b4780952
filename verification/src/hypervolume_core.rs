//! The hypervolume engine: executable code, proved equal to the model.
//!
//! `compute` brings the points into the canonical order and hands them to
//! `get_hypervolume_recursive`, which decomposes by point count: the box
//! volume for one point, inclusion-exclusion for two, and for three or more a
//! sweep that sums, from the last point backwards, each point's exclusive
//! volume against the points sorted after it.

use vstd::prelude::*;
use crate::model::{axis_gap, box_volume, box_volume_fits, compute_fits, exclusive_fits,
    exclusive_hv, hv_fits, hv_rec, intersection_corners, keeps, lemma_limited_points_len,
    lemma_partial_volume_nonneg, lemma_sweep_fits_skip, lex_leq_fn, limited_points, max_corner,
    partial_volume, spec_compute, staircase, sweep, sweep_fits, uniform_dims};
use crate::sorting::{lemma_lex_total_ordering, lemma_points_deep_view,
    lemma_uniform_dims_multiset, point_copy, sorted_points};

verus! {

/// Volume of the axis-aligned box spanned by two points (in practice a point
/// and the reference point): the product of the per-axis distances.
pub fn get_hypervolume_two_points(pt0: &Vec<i64>, pt1: &Vec<i64>) -> (v: i64)
    requires
        pt0@.len() == pt1@.len(),
        pt0@.len() >= 1,
        box_volume_fits(pt0@, pt1@),
    ensures
        v as int == box_volume(pt0@, pt1@),
        v >= 0,
{
    let mut prod: i64 = 1;
    let mut i: usize = 0;
    while i < pt0.len()
        invariant
            i <= pt0@.len(),
            pt0@.len() == pt1@.len(),
            box_volume_fits(pt0@, pt1@),
            prod as int == partial_volume(pt0@, pt1@, i as int),
            prod >= 0,
        decreases pt0@.len() - i,
    {
        proof {
            assert(axis_gap(pt0@[i as int], pt1@[i as int]) <= i64::MAX);
        }
        let gap: i64 = if pt0[i] >= pt1[i] {
            pt0[i] - pt1[i]
        } else {
            pt1[i] - pt0[i]
        };
        proof {
            assert(gap as int == axis_gap(pt0@[i as int], pt1@[i as int]));
            assert((prod as int) * (gap as int) == partial_volume(pt0@, pt1@, i as int + 1));
            assert(partial_volume(pt0@, pt1@, i as int + 1) <= i64::MAX);
            lemma_partial_volume_nonneg(pt0@, pt1@, i as int + 1);
        }
        prod = prod * gap;
        i += 1;
    }
    prod
}

/// Coordinate-wise maximum of two points: the corner of the intersection of
/// their boxes against the reference point.
pub fn get_max_coordinates(pt0: &Vec<i64>, pt1: &Vec<i64>) -> (out: Vec<i64>)
    requires
        pt0@.len() == pt1@.len(),
        pt0@.len() >= 1,
    ensures
        out@ == max_corner(pt0@, pt1@),
{
    let ghost m = max_corner(pt0@, pt1@);
    let mut out: Vec<i64> = Vec::new();
    let mut i: usize = 0;
    while i < pt0.len()
        invariant
            i <= pt0@.len(),
            pt0@.len() == pt1@.len(),
            m == max_corner(pt0@, pt1@),
            out@ == m.take(i as int),
        decreases pt0@.len() - i,
    {
        let c: i64 = if pt0[i] >= pt1[i] {
            pt0[i]
        } else {
            pt1[i]
        };
        out.push(c);
        proof {
            assert(m[i as int] == c);
            assert(m.take(i as int).push(c) =~= m.take(i as int + 1));
        }
        i += 1;
    }
    proof {
        assert(m.take(pt0@.len() as int) =~= m);
    }
    out
}

/// Whether some axis of `a` lies strictly beyond the same axis of `b`.
fn any_axis_gt(a: &Vec<i64>, b: &Vec<i64>) -> (r: bool)
    requires
        a@.len() == b@.len(),
    ensures
        r == keeps(a@, b@),
{
    let mut i: usize = 0;
    while i < a.len()
        invariant
            i <= a@.len(),
            a@.len() == b@.len(),
            forall|ax: int| 0 <= ax < i ==> #[trigger] a@[ax] <= b@[ax],
        decreases a@.len() - i,
    {
        if a[i] > b[i] {
            proof {
                assert(a@[i as int] > b@[i as int]);
                assert(keeps(a@, b@));
            }
            return true;
        }
        i += 1;
    }
    false
}

/// Copy of the points from `start` onwards.
fn tail_from(pts: &Vec<Vec<i64>>, start: usize) -> (out: Vec<Vec<i64>>)
    requires
        start <= pts@.len(),
    ensures
        out.deep_view() == pts.deep_view().skip(start as int),
        out@.len() == pts@.len() - start,
{
    let ghost all = pts.deep_view();
    let mut out: Vec<Vec<i64>> = Vec::new();
    proof {
        lemma_points_deep_view(*pts);
        assert(out.deep_view() =~= all.subrange(start as int, start as int));
    }
    let mut j: usize = start;
    while j < pts.len()
        invariant
            start <= j <= pts@.len(),
            all == pts.deep_view(),
            all.len() == pts@.len(),
            forall|k: int| 0 <= k < pts@.len() ==> all[k] == #[trigger] pts@[k]@,
            out@.len() == j - start,
            out.deep_view() == all.subrange(start as int, j as int),
        decreases pts@.len() - j,
    {
        let x = point_copy(&pts[j]);
        let ghost pre = out.deep_view();
        let ghost preseq = out@;
        let ghost xvec = x;
        out.push(x);
        proof {
            lemma_points_deep_view(out);
            assert(out@ == preseq.push(xvec));
            assert forall|k: int| 0 <= k < out@.len() implies out.deep_view()[k] == pre.push(
                xvec@,
            )[k] by {
                assert(out.deep_view()[k] == out@[k]@);
            }
            assert(out.deep_view() =~= pre.push(xvec@));
            assert(xvec@ == all[j as int]);
            assert(all.subrange(start as int, j as int).push(all[j as int]) =~= all.subrange(
                start as int,
                j as int + 1,
            ));
        }
        j += 1;
    }
    proof {
        assert(all.subrange(start as int, all.len() as int) =~= all.skip(start as int));
    }
    out
}

/// Exclusive contribution of `pt` against the points `pts` that sort after
/// it: its box volume minus the union covered by the staircase-filtered
/// intersection corners.
pub fn get_exclusive_hypervolume(pt: &Vec<i64>, pts: &Vec<Vec<i64>>, ref_pt: &Vec<i64>) -> (v: i64)
    requires
        pt@.len() == ref_pt@.len(),
        ref_pt@.len() >= 1,
        uniform_dims(pts.deep_view(), ref_pt@.len()),
        exclusive_fits(pt@, pts.deep_view(), ref_pt@),
    ensures
        v as int == exclusive_hv(pt@, pts.deep_view(), ref_pt@),
    decreases pts@.len() + 1, 1int,
{
    let ghost s = pts.deep_view();
    let ghost lim = limited_points(pt@, s);
    let ghost d = ref_pt@.len();
    proof {
        lemma_points_deep_view(*pts);
    }
    let mut limited: Vec<Vec<i64>> = Vec::new();
    if pts.len() > 0 {
        let ghost cs = intersection_corners(pt@, s);
        let mut corners: Vec<Vec<i64>> = Vec::new();
        let mut i: usize = 0;
        while i < pts.len()
            invariant
                i <= pts@.len(),
                s == pts.deep_view(),
                s.len() == pts@.len(),
                forall|k: int| 0 <= k < pts@.len() ==> s[k] == #[trigger] pts@[k]@,
                pt@.len() == d,
                ref_pt@.len() == d,
                d >= 1,
                uniform_dims(s, d),
                cs == intersection_corners(pt@, s),
                corners@.len() == i,
                corners.deep_view() == cs.take(i as int),
            decreases pts@.len() - i,
        {
            let m = get_max_coordinates(&pts[i], pt);
            let ghost pre = corners.deep_view();
            let ghost preseq = corners@;
            let ghost mvec = m;
            corners.push(m);
            proof {
                lemma_points_deep_view(corners);
                assert(corners@ == preseq.push(mvec));
                assert forall|k: int| 0 <= k < corners@.len() implies corners.deep_view()[k]
                    == pre.push(mvec@)[k] by {
                    assert(corners.deep_view()[k] == corners@[k]@);
                }
                assert(corners.deep_view() =~= pre.push(mvec@));
                assert(mvec@ == cs[i as int]);
                assert(cs.take(i as int).push(cs[i as int]) =~= cs.take(i as int + 1));
            }
            i += 1;
        }
        proof {
            assert(cs.take(cs.len() as int) =~= cs);
            assert(corners.deep_view() == cs);
            lemma_points_deep_view(corners);
        }
        limited.push(point_copy(&corners[0]));
        proof {
            assert(limited.deep_view() =~= seq![cs[0]]);
            assert(cs.skip(1) =~= cs.drop_first());
            assert(lim == seq![cs[0]] + staircase(cs[0], cs.skip(1)));
            assert(limited.deep_view() + staircase(cs[0], cs.skip(1)) =~= lim);
            assert(uniform_dims(limited.deep_view(), d));
        }
        let mut left: usize = 0;
        let mut right: usize = 1;
        while right < corners.len()
            invariant
                1 <= right <= cs.len(),
                left < right,
                s.len() == pts@.len(),
                cs.len() == s.len(),
                corners@.len() == cs.len(),
                corners.deep_view() == cs,
                forall|k: int| 0 <= k < corners@.len() ==> cs[k] == #[trigger] corners@[k]@,
                uniform_dims(cs, d),
                d >= 1,
                limited@.len() == limited.deep_view().len(),
                limited@.len() >= 1,
                uniform_dims(limited.deep_view(), d),
                limited.deep_view() + staircase(cs[left as int], cs.skip(right as int)) == lim,
            decreases cs.len() - right,
        {
            proof {
                assert(cs.skip(right as int)[0] == cs[right as int]);
                assert(cs.skip(right as int).drop_first() =~= cs.skip(right as int + 1));
            }
            if any_axis_gt(&corners[left], &corners[right]) {
                let ghost pre = limited.deep_view();
                let ghost preseq = limited@;
                let x = point_copy(&corners[right]);
                let ghost xvec = x;
                limited.push(x);
                proof {
                    lemma_points_deep_view(limited);
                    assert(limited@ == preseq.push(xvec));
                    assert forall|k: int| 0 <= k < limited@.len() implies limited.deep_view()[k]
                        == pre.push(xvec@)[k] by {
                        assert(limited.deep_view()[k] == limited@[k]@);
                    }
                    assert(limited.deep_view() =~= pre.push(xvec@));
                    assert(xvec@ == cs[right as int]);
                    assert(staircase(cs[left as int], cs.skip(right as int)) == seq![
                        cs[right as int],
                    ] + staircase(cs[right as int], cs.skip(right as int + 1)));
                    assert(pre.push(cs[right as int]) =~= pre + seq![cs[right as int]]);
                    assert((pre + seq![cs[right as int]]) + staircase(
                        cs[right as int],
                        cs.skip(right as int + 1),
                    ) =~= pre + (seq![cs[right as int]] + staircase(
                        cs[right as int],
                        cs.skip(right as int + 1),
                    )));
                }
                left = right;
            } else {
                proof {
                    assert(staircase(cs[left as int], cs.skip(right as int)) == staircase(
                        cs[left as int],
                        cs.skip(right as int + 1),
                    ));
                }
            }
            right += 1;
        }
        proof {
            assert(cs.skip(cs.len() as int) =~= Seq::<Seq<i64>>::empty());
            assert(staircase(cs[left as int], Seq::<Seq<i64>>::empty()) =~= Seq::<
                Seq<i64>,
            >::empty());
            assert(limited.deep_view() + Seq::<Seq<i64>>::empty() =~= limited.deep_view());
            assert(limited.deep_view() == lim);
        }
    } else {
        proof {
            assert(lim =~= Seq::<Seq<i64>>::empty());
            assert(limited.deep_view() =~= lim);
        }
    }
    proof {
        assert(limited.deep_view() == lim);
        assert(limited@.len() == lim.len());
        lemma_limited_points_len(pt@, s);
        lemma_points_deep_view(limited);
        assert(uniform_dims(lim, d));
        assert(hv_fits(lim, ref_pt@));
    }
    let v_pt = get_hypervolume_two_points(pt, ref_pt);
    let under: i64 = if limited.len() == 0 {
        proof {
            assert(hv_rec(lim, ref_pt@) == sweep(lim, ref_pt@));
            assert(sweep(lim, ref_pt@) == 0);
        }
        0
    } else if limited.len() == 1 {
        proof {
            assert(limited@[0]@ == lim[0]);
            assert(box_volume_fits(lim[0], ref_pt@));
        }
        get_hypervolume_two_points(&limited[0], ref_pt)
    } else {
        get_hypervolume_recursive(&limited, ref_pt)
    };
    proof {
        assert(under as int == hv_rec(lim, ref_pt@));
        assert(-i64::MAX <= exclusive_hv(pt@, s, ref_pt@) <= i64::MAX);
    }
    v_pt - under
}

/// The recursive union-of-boxes volume of a point set, decomposed by point
/// count. Callers establish the sort order the sweep case depends on.
pub fn get_hypervolume_recursive(pts: &Vec<Vec<i64>>, ref_pt: &Vec<i64>) -> (v: i64)
    requires
        ref_pt@.len() >= 1,
        uniform_dims(pts.deep_view(), ref_pt@.len()),
        hv_fits(pts.deep_view(), ref_pt@),
    ensures
        v as int == hv_rec(pts.deep_view(), ref_pt@),
    decreases pts@.len(), 3int,
{
    let ghost s = pts.deep_view();
    let ghost r = ref_pt@;
    proof {
        lemma_points_deep_view(*pts);
    }
    if pts.len() == 1 {
        get_hypervolume_two_points(&pts[0], ref_pt)
    } else if pts.len() == 2 {
        let m = get_max_coordinates(&pts[0], &pts[1]);
        proof {
            assert(m@ == max_corner(s[0], s[1]));
        }
        let v0 = get_hypervolume_two_points(&pts[0], ref_pt);
        let v1 = get_hypervolume_two_points(&pts[1], ref_pt);
        let vm = get_hypervolume_two_points(&m, ref_pt);
        proof {
            assert(v0 as int + v1 as int <= i64::MAX);
        }
        v0 + v1 - vm
    } else {
        proof {
            assert(sweep_fits(s, r));
            assert(s.skip(s.len() as int) =~= Seq::<Seq<i64>>::empty());
        }
        let mut acc: i64 = 0;
        let mut i: usize = pts.len();
        while i > 0
            invariant
                i <= pts@.len(),
                s == pts.deep_view(),
                s.len() == pts@.len(),
                forall|k: int| 0 <= k < pts@.len() ==> s[k] == #[trigger] pts@[k]@,
                r == ref_pt@,
                r.len() >= 1,
                uniform_dims(s, r.len()),
                sweep_fits(s, r),
                acc as int == sweep(s.skip(i as int), r),
            decreases i,
        {
            let idx = i - 1;
            let tail = tail_from(pts, i);
            proof {
                lemma_sweep_fits_skip(s, r, idx as int);
                assert(s.skip(idx as int)[0] == s[idx as int]);
                assert(s.skip(idx as int).drop_first() =~= s.skip(i as int));
                assert(exclusive_fits(s[idx as int], s.skip(i as int), r));
                assert forall|k: int| 0 <= k < s.skip(i as int).len() implies (#[trigger] s.skip(
                    i as int,
                )[k]).len() == r.len() by {
                    assert(s.skip(i as int)[k] == s[i + k]);
                }
                assert(uniform_dims(s.skip(i as int), r.len()));
            }
            let e = get_exclusive_hypervolume(&pts[idx], &tail, ref_pt);
            proof {
                assert(e as int + acc as int == sweep(s.skip(idx as int), r));
                assert(-i64::MAX <= sweep(s.skip(idx as int), r) <= i64::MAX);
            }
            acc = e + acc;
            i = idx;
        }
        proof {
            assert(s.skip(0) =~= s);
        }
        acc
    }
}

/// The hypervolume indicator of `pts` relative to `ref_pt`: the measure of
/// the region dominated by at least one point and bounded by the reference
/// point, exact in integer coordinates.
///
/// The reference point must have at least one dimension, all points must
/// share its dimension, and the recursion's intermediate values must fit the
/// machine integer type (`compute_fits`). The result equals the recursive
/// decomposition applied to the points in canonical lexicographic order.
pub fn compute(pts: &Vec<Vec<i64>>, ref_pt: &Vec<i64>) -> (hv: i64)
    requires
        ref_pt@.len() >= 1,
        uniform_dims(pts.deep_view(), ref_pt@.len()),
        compute_fits(pts.deep_view(), ref_pt@),
    ensures
        hv as int == spec_compute(pts.deep_view(), ref_pt@),
        pts@.len() == 0 ==> hv == 0,
{
    proof {
        if pts@.len() == 0 {
            assert(pts.deep_view() =~= Seq::<Seq<i64>>::empty());
            crate::laws::lemma_compute_empty(ref_pt@);
        }
    }
    let sorted = sorted_points(pts);
    proof {
        lemma_lex_total_ordering();
        pts.deep_view().lemma_sort_by_ensures(lex_leq_fn());
        lemma_uniform_dims_multiset(pts.deep_view(), sorted.deep_view(), ref_pt@.len());
    }
    get_hypervolume_recursive(&sorted, ref_pt)
}

} // verus!
