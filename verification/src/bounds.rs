//! A checkable sufficient condition for the machine-limit side condition.
//!
//! `compute` demands that every intermediate value of the recursion fits the
//! machine integer type. That predicate follows the recursion's shape; the
//! lemma at the bottom of this module discharges it from two simple facts a
//! caller can establish directly: per-axis bounds on the distances between
//! the points and the reference point, and a budget on the point count.

use vstd::prelude::*;
use vstd::arithmetic::mul::{lemma_mul_inequality, lemma_mul_left_inequality,
    lemma_mul_nonnegative, lemma_mul_upper_bound};
use crate::model::{axis_gap, box_volume, box_volume_fits, compute_fits, exclusive_fits,
    exclusive_hv, hv_fits, hv_rec, intersection_corners, lemma_limited_points_len, lex_leq_fn,
    limited_points, max_corner, partial_volume, staircase, sweep, sweep_fits, uniform_dims};
use crate::sorting::lemma_lex_total_ordering;

verus! {

/// Every axis gap of `q` against `ref_pt` lies within the per-axis bounds
/// `g`.
pub open spec fn within_gaps(q: Seq<i64>, ref_pt: Seq<i64>, g: Seq<int>) -> bool {
    &&& q.len() == ref_pt.len()
    &&& ref_pt.len() == g.len()
    &&& forall|i: int| 0 <= i < q.len() ==> #[trigger] axis_gap(q[i], ref_pt[i]) <= g[i]
}

/// The per-axis bounds are non-negative and hold of every point of `s`.
pub open spec fn gap_env(s: Seq<Seq<i64>>, ref_pt: Seq<i64>, g: Seq<int>) -> bool {
    &&& ref_pt.len() == g.len()
    &&& forall|i: int| 0 <= i < g.len() ==> #[trigger] g[i] >= 0
    &&& forall|k: int| 0 <= k < s.len() ==> within_gaps(#[trigger] s[k], ref_pt, g)
}

/// Product of the per-axis budgets `g[i] + 1` over the first `k` axes: an
/// upper bound on every box volume and every partial product the engine
/// forms.
pub open spec fn gap_budget(g: Seq<int>, k: int) -> int
    decreases k,
{
    if k <= 0 {
        1
    } else {
        gap_budget(g, k - 1) * (g[k - 1] + 1)
    }
}

/// Amplification factor on the point count: every intermediate value of the
/// recursion on `n` points stays within `amp(n)` times the gap budget.
pub open spec fn amp(n: int) -> int
    decreases n,
{
    if n <= 1 {
        1
    } else {
        n * (amp(n - 1) + 1)
    }
}

proof fn lemma_gap_budget_pos(g: Seq<int>, k: int)
    requires
        k <= g.len(),
        forall|i: int| 0 <= i < g.len() ==> #[trigger] g[i] >= 0,
    ensures
        gap_budget(g, k) >= 1,
    decreases k,
{
    if k > 0 {
        lemma_gap_budget_pos(g, k - 1);
        lemma_mul_left_inequality(gap_budget(g, k - 1), 1, g[k - 1] + 1);
    }
}

proof fn lemma_gap_budget_le(g: Seq<int>, k: int, m: int)
    requires
        0 <= k <= m <= g.len(),
        forall|i: int| 0 <= i < g.len() ==> #[trigger] g[i] >= 0,
    ensures
        gap_budget(g, k) <= gap_budget(g, m),
    decreases m - k,
{
    if k < m {
        lemma_gap_budget_le(g, k, m - 1);
        lemma_gap_budget_pos(g, m - 1);
        lemma_mul_left_inequality(gap_budget(g, m - 1), 1, g[m - 1] + 1);
    }
}

proof fn lemma_gap_factor_le(g: Seq<int>, i: int)
    requires
        0 <= i < g.len(),
        forall|i0: int| 0 <= i0 < g.len() ==> #[trigger] g[i0] >= 0,
    ensures
        g[i] + 1 <= gap_budget(g, g.len() as int),
{
    lemma_gap_budget_pos(g, i);
    lemma_mul_inequality(1, gap_budget(g, i), g[i] + 1);
    assert(gap_budget(g, i + 1) == gap_budget(g, i) * (g[i] + 1));
    lemma_gap_budget_le(g, i + 1, g.len() as int);
}

proof fn lemma_partial_volume_within(q: Seq<i64>, ref_pt: Seq<i64>, g: Seq<int>, k: int)
    requires
        within_gaps(q, ref_pt, g),
        forall|i: int| 0 <= i < g.len() ==> #[trigger] g[i] >= 0,
        0 <= k <= q.len(),
    ensures
        0 <= partial_volume(q, ref_pt, k),
        partial_volume(q, ref_pt, k) <= gap_budget(g, k),
    decreases k,
{
    if k > 0 {
        lemma_partial_volume_within(q, ref_pt, g, k - 1);
        lemma_mul_upper_bound(
            partial_volume(q, ref_pt, k - 1),
            gap_budget(g, k - 1),
            axis_gap(q[k - 1], ref_pt[k - 1]),
            g[k - 1] + 1,
        );
        lemma_mul_nonnegative(partial_volume(q, ref_pt, k - 1), axis_gap(q[k - 1], ref_pt[k - 1]));
    }
}

proof fn lemma_box_volume_fits_from_gaps(q: Seq<i64>, ref_pt: Seq<i64>, g: Seq<int>)
    requires
        within_gaps(q, ref_pt, g),
        forall|i: int| 0 <= i < g.len() ==> #[trigger] g[i] >= 0,
        gap_budget(g, g.len() as int) <= i64::MAX,
    ensures
        box_volume_fits(q, ref_pt),
        0 <= box_volume(q, ref_pt),
        box_volume(q, ref_pt) <= gap_budget(g, g.len() as int),
{
    assert forall|i: int| 0 <= i < q.len() implies #[trigger] axis_gap(q[i], ref_pt[i])
        <= i64::MAX by {
        lemma_gap_factor_le(g, i);
    }
    assert forall|k: int| 0 <= k <= q.len() implies #[trigger] partial_volume(q, ref_pt, k)
        <= i64::MAX by {
        lemma_partial_volume_within(q, ref_pt, g, k);
        lemma_gap_budget_le(g, k, g.len() as int);
    }
    lemma_partial_volume_within(q, ref_pt, g, q.len() as int);
}

proof fn lemma_max_corner_within(a: Seq<i64>, b: Seq<i64>, ref_pt: Seq<i64>, g: Seq<int>)
    requires
        within_gaps(a, ref_pt, g),
        within_gaps(b, ref_pt, g),
    ensures
        within_gaps(max_corner(a, b), ref_pt, g),
{
    assert forall|i: int| 0 <= i < max_corner(a, b).len() implies #[trigger] axis_gap(
        max_corner(a, b)[i],
        ref_pt[i],
    ) <= g[i] by {
        assert(max_corner(a, b)[i] == a[i] || max_corner(a, b)[i] == b[i]);
        assert(axis_gap(a[i], ref_pt[i]) <= g[i]);
        assert(axis_gap(b[i], ref_pt[i]) <= g[i]);
    }
}

proof fn lemma_staircase_env(kept: Seq<i64>, cs: Seq<Seq<i64>>, ref_pt: Seq<i64>, g: Seq<int>)
    requires
        forall|k: int| 0 <= k < cs.len() ==> within_gaps(#[trigger] cs[k], ref_pt, g),
    ensures
        forall|k: int|
            0 <= k < staircase(kept, cs).len() ==> within_gaps(
                #[trigger] staircase(kept, cs)[k],
                ref_pt,
                g,
            ),
    decreases cs.len(),
{
    if cs.len() > 0 {
        let d = cs.drop_first();
        assert forall|k: int| 0 <= k < d.len() implies within_gaps(#[trigger] d[k], ref_pt, g) by {
            assert(d[k] == cs[k + 1]);
        }
        if crate::model::keeps(kept, cs[0]) {
            lemma_staircase_env(cs[0], d, ref_pt, g);
            let out = staircase(kept, cs);
            assert forall|k: int| 0 <= k < out.len() implies within_gaps(
                #[trigger] out[k],
                ref_pt,
                g,
            ) by {
                if k == 0 {
                    assert(out[0] == cs[0]);
                } else {
                    assert(out[k] == staircase(cs[0], d)[k - 1]);
                }
            }
        } else {
            lemma_staircase_env(kept, d, ref_pt, g);
            assert(staircase(kept, cs) == staircase(kept, d));
        }
    }
}

proof fn lemma_limited_env(pt: Seq<i64>, rest: Seq<Seq<i64>>, ref_pt: Seq<i64>, g: Seq<int>)
    requires
        within_gaps(pt, ref_pt, g),
        gap_env(rest, ref_pt, g),
    ensures
        gap_env(limited_points(pt, rest), ref_pt, g),
{
    if rest.len() > 0 {
        let cs = intersection_corners(pt, rest);
        assert forall|k: int| 0 <= k < cs.len() implies within_gaps(
            #[trigger] cs[k],
            ref_pt,
            g,
        ) by {
            lemma_max_corner_within(rest[k], pt, ref_pt, g);
        }
        let d = cs.drop_first();
        assert forall|k: int| 0 <= k < d.len() implies within_gaps(#[trigger] d[k], ref_pt, g) by {
            assert(d[k] == cs[k + 1]);
        }
        lemma_staircase_env(cs[0], d, ref_pt, g);
        let lim = limited_points(pt, rest);
        assert forall|k: int| 0 <= k < lim.len() implies within_gaps(
            #[trigger] lim[k],
            ref_pt,
            g,
        ) by {
            if k == 0 {
                assert(lim[0] == cs[0]);
            } else {
                assert(lim[k] == staircase(cs[0], d)[k - 1]);
            }
        }
    }
}

proof fn lemma_hv_fits_env(s: Seq<Seq<i64>>, ref_pt: Seq<i64>, g: Seq<int>)
    requires
        gap_env(s, ref_pt, g),
        amp(s.len() as int) * gap_budget(g, g.len() as int) <= i64::MAX,
    ensures
        hv_fits(s, ref_pt),
        -(amp(s.len() as int) * gap_budget(g, g.len() as int)) <= hv_rec(s, ref_pt),
        hv_rec(s, ref_pt) <= amp(s.len() as int) * gap_budget(g, g.len() as int),
    decreases s.len(), 3int,
{
    let w = gap_budget(g, g.len() as int);
    let n = s.len() as int;
    lemma_gap_budget_pos(g, g.len() as int);
    lemma_amp_pos(n);
    if s.len() == 1 {
        lemma_mul_inequality(1, amp(n), w);
        lemma_box_volume_fits_from_gaps(s[0], ref_pt, g);
    } else if s.len() == 2 {
        assert(amp(1) == 1);
        assert(amp(2) == 4);
        lemma_mul_inequality(1, 4, w);
        lemma_mul_inequality(2, 4, w);
        lemma_box_volume_fits_from_gaps(s[0], ref_pt, g);
        lemma_box_volume_fits_from_gaps(s[1], ref_pt, g);
        lemma_max_corner_within(s[0], s[1], ref_pt, g);
        lemma_box_volume_fits_from_gaps(max_corner(s[0], s[1]), ref_pt, g);
        assert(2 * w == w + w) by (nonlinear_arith);
    } else if s.len() == 0 {
        assert(hv_rec(s, ref_pt) == sweep(s, ref_pt));
    } else {
        assert(amp(n) == n * (amp(n - 1) + 1));
        lemma_sweep_fits_env(s, ref_pt, g);
    }
}

proof fn lemma_sweep_fits_env(s: Seq<Seq<i64>>, ref_pt: Seq<i64>, g: Seq<int>)
    requires
        gap_env(s, ref_pt, g),
        s.len() >= 1,
        (s.len() as int * (amp(s.len() as int - 1) + 1)) * gap_budget(g, g.len() as int)
            <= i64::MAX,
    ensures
        sweep_fits(s, ref_pt),
        -((s.len() as int * (amp(s.len() as int - 1) + 1)) * gap_budget(g, g.len() as int))
            <= sweep(s, ref_pt),
        sweep(s, ref_pt) <= (s.len() as int * (amp(s.len() as int - 1) + 1)) * gap_budget(
            g,
            g.len() as int,
        ),
    decreases s.len(), 2int,
{
    let w = gap_budget(g, g.len() as int);
    let n = s.len() as int;
    let b1 = amp(n - 1) + 1;
    lemma_gap_budget_pos(g, g.len() as int);
    lemma_amp_pos(n - 1);
    let d = s.drop_first();
    assert forall|k: int| 0 <= k < d.len() implies within_gaps(#[trigger] d[k], ref_pt, g) by {
        assert(d[k] == s[k + 1]);
    }
    lemma_mul_inequality(1, n, b1);
    lemma_mul_inequality(b1, n * b1, w);
    lemma_exclusive_fits_env(s[0], d, ref_pt, g);
    if s.len() == 1 {
        assert(sweep_fits(d, ref_pt));
        assert(sweep(d, ref_pt) == 0);
        assert(sweep(s, ref_pt) == exclusive_hv(s[0], d, ref_pt));
        assert((1 * b1) * w == b1 * w) by (nonlinear_arith);
        assert(-i64::MAX <= sweep(s, ref_pt) <= i64::MAX);
        assert(sweep_fits(s, ref_pt));
    } else {
        lemma_amp_mono(n - 2, n - 1);
        lemma_mul_left_inequality(n - 1, amp(n - 2) + 1, b1);
        lemma_mul_inequality(n - 1, n, b1);
        lemma_mul_inequality((n - 1) * (amp(n - 2) + 1), n * b1, w);
        lemma_sweep_fits_env(d, ref_pt, g);
        lemma_mul_inequality((n - 1) * (amp(n - 2) + 1), (n - 1) * b1, w);
        assert((n * b1) * w == b1 * w + ((n - 1) * b1) * w) by (nonlinear_arith);
        assert(sweep(s, ref_pt) == exclusive_hv(s[0], d, ref_pt) + sweep(d, ref_pt));
        assert(sweep(d, ref_pt) <= ((n - 1) * b1) * w);
        assert(-(((n - 1) * b1) * w) <= sweep(d, ref_pt));
        assert(sweep(s, ref_pt) <= (n * b1) * w);
        assert(-((n * b1) * w) <= sweep(s, ref_pt));
        assert(-i64::MAX <= sweep(s, ref_pt) <= i64::MAX);
        assert(sweep_fits(s, ref_pt));
    }
}

proof fn lemma_exclusive_fits_env(pt: Seq<i64>, rest: Seq<Seq<i64>>, ref_pt: Seq<i64>, g: Seq<int>)
    requires
        within_gaps(pt, ref_pt, g),
        gap_env(rest, ref_pt, g),
        (amp(rest.len() as int) + 1) * gap_budget(g, g.len() as int) <= i64::MAX,
    ensures
        exclusive_fits(pt, rest, ref_pt),
        -((amp(rest.len() as int) + 1) * gap_budget(g, g.len() as int)) <= exclusive_hv(
            pt,
            rest,
            ref_pt,
        ),
        exclusive_hv(pt, rest, ref_pt) <= (amp(rest.len() as int) + 1) * gap_budget(
            g,
            g.len() as int,
        ),
    decreases rest.len() + 1, 1int,
{
    let w = gap_budget(g, g.len() as int);
    let m = rest.len() as int;
    lemma_gap_budget_pos(g, g.len() as int);
    lemma_amp_pos(m);
    lemma_mul_inequality(1, amp(m) + 1, w);
    lemma_box_volume_fits_from_gaps(pt, ref_pt, g);
    let lim = limited_points(pt, rest);
    lemma_limited_env(pt, rest, ref_pt, g);
    lemma_limited_points_len(pt, rest);
    lemma_amp_mono(lim.len() as int, m);
    lemma_mul_inequality(amp(lim.len() as int), amp(m) + 1, w);
    lemma_hv_fits_env(lim, ref_pt, g);
    lemma_mul_inequality(amp(lim.len() as int), amp(m), w);
    assert((amp(m) + 1) * w == amp(m) * w + w) by (nonlinear_arith);
}

/// The machine-limit side condition of `compute`, discharged from what a
/// caller can bound directly: if every point's per-axis distance to the
/// reference point lies within `g`, and the amplification factor of the point
/// count times the gap budget fits the machine integer type, then every
/// intermediate value of the computation fits.
pub proof fn lemma_compute_fits_from_gaps(pts: Seq<Seq<i64>>, ref_pt: Seq<i64>, g: Seq<int>)
    requires
        gap_env(pts, ref_pt, g),
        amp(pts.len() as int) * gap_budget(g, g.len() as int) <= i64::MAX,
    ensures
        compute_fits(pts, ref_pt),
        uniform_dims(pts, ref_pt.len()),
{
    broadcast use vstd::seq_lib::group_to_multiset_ensures;

    lemma_lex_total_ordering();
    pts.lemma_sort_by_ensures(lex_leq_fn());
    let t = pts.sort_by(lex_leq_fn());
    vstd::seq_lib::to_multiset_len(pts);
    vstd::seq_lib::to_multiset_len(t);
    assert(t.to_multiset() == pts.to_multiset());
    assert(t.len() == pts.len());
    assert forall|k: int| 0 <= k < t.len() implies within_gaps(#[trigger] t[k], ref_pt, g) by {
        assert(t.contains(t[k]));
        assert(t.to_multiset().count(t[k]) > 0);
        assert(pts.to_multiset().count(t[k]) > 0);
        assert(pts.contains(t[k]));
        let j = choose|j: int| 0 <= j < pts.len() && pts[j] == t[k];
        assert(within_gaps(pts[j], ref_pt, g));
    }
    lemma_hv_fits_env(t, ref_pt, g);
}

proof fn lemma_amp_pos(n: int)
    ensures
        amp(n) >= 1,
    decreases n,
{
    if n > 1 {
        lemma_amp_pos(n - 1);
        lemma_mul_left_inequality(n, 1, amp(n - 1) + 1);
    }
}

proof fn lemma_amp_mono(m: int, n: int)
    requires
        m <= n,
    ensures
        amp(m) <= amp(n),
    decreases n,
{
    if n > 1 && m < n {
        lemma_amp_mono(m, n - 1);
        lemma_amp_pos(n - 1);
        lemma_mul_inequality(1, n, amp(n - 1) + 1);
    }
}

} // verus!
