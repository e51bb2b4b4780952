//! Laws of the hypervolume indicator, stated over the model and proved once
//! and for all: invariance under permutation of the input, invariance under a
//! duplicated point, and the closed forms for empty, one-point and two-point
//! sets.

use vstd::prelude::*;
use vstd::relations::sorted_by;
use vstd::seq_lib::group_to_multiset_ensures;
use vstd::seq_lib::lemma_sorted_unique;
use crate::model::{box_volume, exclusive_hv, hv_rec, intersection_corners, keeps, lex_leq,
    lex_leq_fn, limited_points, max_corner, spec_compute, staircase, sweep, uniform_dims};
use crate::sorting::{lemma_lex_connected, lemma_lex_reflexive, lemma_lex_total_ordering,
    lemma_sorted_insert, lemma_uniform_dims_multiset};

verus! {

pub proof fn lemma_max_corner_self(p: Seq<i64>)
    ensures
        max_corner(p, p) == p,
{
    assert(max_corner(p, p) =~= p);
}

pub proof fn lemma_max_corner_comm(a: Seq<i64>, b: Seq<i64>)
    requires
        a.len() == b.len(),
    ensures
        max_corner(a, b) == max_corner(b, a),
{
    assert(max_corner(a, b) =~= max_corner(b, a));
}

/// The hypervolume is invariant under any permutation of the point set: it is
/// a function of the multiset of points alone.
pub proof fn lemma_compute_permutation(s1: Seq<Seq<i64>>, s2: Seq<Seq<i64>>, ref_pt: Seq<i64>)
    requires
        s1.to_multiset() == s2.to_multiset(),
    ensures
        spec_compute(s1, ref_pt) == spec_compute(s2, ref_pt),
{
    let leq = lex_leq_fn();
    lemma_lex_total_ordering();
    s1.lemma_sort_by_ensures(leq);
    s2.lemma_sort_by_ensures(leq);
    assert(s1.sort_by(leq).to_multiset() == s2.sort_by(leq).to_multiset());
    lemma_sorted_unique(s1.sort_by(leq), s2.sort_by(leq), leq);
    assert(s1.sort_by(leq) =~= s2.sort_by(leq));
}

/// The hypervolume of an empty point set is zero, against any reference
/// point.
pub proof fn lemma_compute_empty(ref_pt: Seq<i64>)
    ensures
        spec_compute(Seq::<Seq<i64>>::empty(), ref_pt) == 0,
{
    broadcast use group_to_multiset_ensures;

    let leq = lex_leq_fn();
    let s = Seq::<Seq<i64>>::empty();
    lemma_lex_total_ordering();
    s.lemma_sort_by_ensures(leq);
    vstd::seq_lib::to_multiset_len(s);
    vstd::seq_lib::to_multiset_len(s.sort_by(leq));
    assert(s.sort_by(leq).to_multiset() == s.to_multiset());
    assert(s.sort_by(leq).len() == 0);
    assert(hv_rec(s.sort_by(leq), ref_pt) == sweep(s.sort_by(leq), ref_pt));
}

/// The hypervolume of a single point is the volume of its box: the product of
/// its per-axis distances to the reference point.
pub proof fn lemma_compute_single(p: Seq<i64>, ref_pt: Seq<i64>)
    ensures
        spec_compute(seq![p], ref_pt) == box_volume(p, ref_pt),
{
    broadcast use group_to_multiset_ensures;

    let leq = lex_leq_fn();
    let s = seq![p];
    lemma_lex_total_ordering();
    s.lemma_sort_by_ensures(leq);
    let t = s.sort_by(leq);
    vstd::seq_lib::to_multiset_len(s);
    vstd::seq_lib::to_multiset_len(t);
    assert(t.to_multiset() == s.to_multiset());
    assert(t.len() == 1);
    assert(t.contains(t[0]));
    assert(t.to_multiset().count(t[0]) > 0);
    assert(s.to_multiset().count(t[0]) > 0);
    assert(s.contains(t[0]));
    assert(t[0] == p);
}

/// Two-point inclusion-exclusion: the hypervolume of a pair is the sum of the
/// two box volumes, minus the volume of their intersection box, whose corner
/// is the coordinate-wise maximum of the two points.
pub proof fn lemma_compute_pair(p0: Seq<i64>, p1: Seq<i64>, ref_pt: Seq<i64>)
    requires
        p0.len() == p1.len(),
    ensures
        spec_compute(seq![p0, p1], ref_pt) == box_volume(p0, ref_pt) + box_volume(p1, ref_pt)
            - box_volume(max_corner(p0, p1), ref_pt),
{
    broadcast use group_to_multiset_ensures;

    let leq = lex_leq_fn();
    let s = seq![p0, p1];
    lemma_lex_total_ordering();
    s.lemma_sort_by_ensures(leq);
    lemma_lex_connected(p0, p1);
    let t: Seq<Seq<i64>> = if lex_leq(p0, p1) {
        seq![p0, p1]
    } else {
        seq![p1, p0]
    };
    assert(sorted_by(t, leq));
    assert(t.to_multiset() == s.to_multiset()) by {
        let e = Seq::<Seq<i64>>::empty();
        assert(s =~= e.push(p0).push(p1));
        assert(t =~= if lex_leq(p0, p1) {
            e.push(p0).push(p1)
        } else {
            e.push(p1).push(p0)
        });
        assert(e.push(p0).push(p1).to_multiset() =~= e.push(p1).push(p0).to_multiset());
    }
    lemma_sorted_unique(t, s.sort_by(leq), leq);
    assert(s.sort_by(leq) =~= t);
    if !lex_leq(p0, p1) {
        lemma_max_corner_comm(p0, p1);
    }
}

proof fn lemma_uniform_drop_first(s: Seq<Seq<i64>>, dim: nat)
    requires
        uniform_dims(s, dim),
        s.len() > 0,
    ensures
        uniform_dims(s.drop_first(), dim),
{
    assert forall|k: int| 0 <= k < s.drop_first().len() implies (#[trigger] s.drop_first()[
        k
    ]).len() == dim by {
        assert(s.drop_first()[k] == s[k + 1]);
    }
}

/// A staircase scan that keeps nothing returns nothing.
proof fn lemma_staircase_none(kept: Seq<i64>, cs: Seq<Seq<i64>>)
    requires
        forall|k: int| 0 <= k < cs.len() ==> !keeps(kept, #[trigger] cs[k]),
    ensures
        staircase(kept, cs) == Seq::<Seq<i64>>::empty(),
    decreases cs.len(),
{
    if cs.len() > 0 {
        assert forall|k: int| 0 <= k < cs.drop_first().len() implies !keeps(
            kept,
            #[trigger] cs.drop_first()[k],
        ) by {
            assert(cs.drop_first()[k] == cs[k + 1]);
        }
        lemma_staircase_none(kept, cs.drop_first());
    }
}

/// A point contributes nothing exclusively when its own duplicate leads the
/// points after it: the first intersection corner is the point itself, it
/// dominates every later corner, and its box is the whole box.
proof fn lemma_exclusive_self_first(p: Seq<i64>, tail: Seq<Seq<i64>>, ref_pt: Seq<i64>, dim: nat)
    requires
        p.len() == dim,
        uniform_dims(tail, dim),
    ensures
        exclusive_hv(p, seq![p] + tail, ref_pt) == 0,
{
    let rest = seq![p] + tail;
    let cs = intersection_corners(p, rest);
    assert(rest[0] == p);
    lemma_max_corner_self(p);
    assert(cs[0] == p);
    let csd = cs.drop_first();
    assert forall|k: int| 0 <= k < csd.len() implies !keeps(p, #[trigger] csd[k]) by {
        assert(csd[k] == cs[k + 1]);
        assert(cs[k + 1] == max_corner(rest[k + 1], p));
        assert(rest[k + 1] == tail[k]);
        assert(tail[k].len() == dim);
        assert forall|ax: int| 0 <= ax < p.len() implies !(p[ax] > #[trigger] max_corner(
            tail[k],
            p,
        )[ax]) by {
            assert(max_corner(tail[k], p)[ax] >= p[ax]);
        }
    }
    lemma_staircase_none(p, csd);
    assert(limited_points(p, rest) =~= seq![p]);
    assert(hv_rec(seq![p], ref_pt) == box_volume(p, ref_pt));
}

/// Dropping the first element commutes with inserting at a later position.
proof fn lemma_insert_drop_first(s: Seq<Seq<i64>>, j: int, x: Seq<i64>)
    requires
        1 <= j <= s.len(),
    ensures
        s.insert(j, x).drop_first() =~= s.drop_first().insert(j - 1, x),
{
    s.insert_ensures(j, x);
    s.drop_first().insert_ensures(j - 1, x);
    assert forall|k: int| 0 <= k < s.insert(j, x).drop_first().len() implies s.insert(
        j,
        x,
    ).drop_first()[k] == s.drop_first().insert(j - 1, x)[k] by {
        assert(s.insert(j, x).drop_first()[k] == s.insert(j, x)[k + 1]);
        if k + 1 < j {
            assert(s.insert(j, x)[k + 1] == s[k + 1]);
            assert(s.drop_first().insert(j - 1, x)[k] == s.drop_first()[k]);
        } else if k + 1 == j {
        } else {
            assert(s.insert(j, x)[k + 1] == s[k]);
            assert(s.drop_first().insert(j - 1, x)[k] == s.drop_first()[k - 1]);
        }
    }
}

/// Duplicating a corner in place does not change what the staircase keeps.
proof fn lemma_staircase_dup(kept: Seq<i64>, cs: Seq<Seq<i64>>, k: int)
    requires
        0 <= k < cs.len(),
    ensures
        staircase(kept, cs.insert(k, cs[k])) == staircase(kept, cs),
    decreases k,
{
    let cs2 = cs.insert(k, cs[k]);
    cs.insert_ensures(k, cs[k]);
    if k == 0 {
        assert(cs2[0] == cs[0]);
        assert(cs2.drop_first() =~= cs);
        assert(!keeps(cs[0], cs[0]));
        if keeps(kept, cs[0]) {
            assert(staircase(kept, cs2) == seq![cs[0]] + staircase(cs[0], cs));
            assert(staircase(cs[0], cs) == staircase(cs[0], cs.drop_first()));
        } else {
            assert(staircase(kept, cs2) == staircase(kept, cs));
        }
    } else {
        assert(cs2[0] == cs[0]);
        lemma_insert_drop_first(cs, k, cs[k]);
        assert(cs[k] == cs.drop_first()[k - 1]);
        assert(cs2.drop_first() == cs.drop_first().insert(k - 1, cs.drop_first()[k - 1]));
        lemma_staircase_dup(cs[0], cs.drop_first(), k - 1);
        lemma_staircase_dup(kept, cs.drop_first(), k - 1);
    }
}

/// Duplicating one of the later points in place does not change a point's
/// exclusive contribution.
proof fn lemma_exclusive_dup(x: Seq<i64>, rest: Seq<Seq<i64>>, k: int, ref_pt: Seq<i64>)
    requires
        0 <= k < rest.len(),
    ensures
        exclusive_hv(x, rest.insert(k, rest[k]), ref_pt) == exclusive_hv(x, rest, ref_pt),
{
    let rest2 = rest.insert(k, rest[k]);
    rest.insert_ensures(k, rest[k]);
    let cs = intersection_corners(x, rest);
    let cs2 = intersection_corners(x, rest2);
    cs.insert_ensures(k, cs[k]);
    assert forall|i: int| 0 <= i < cs2.len() implies cs2[i] == cs.insert(k, cs[k])[i] by {
        if i < k {
            assert(rest2[i] == rest[i]);
        } else if i == k {
            assert(rest2[i] == rest[k]);
        } else {
            assert(rest2[i] == rest[i - 1]);
        }
    }
    assert(cs2 =~= cs.insert(k, cs[k]));
    if k == 0 {
        assert(cs2[0] == cs[0]);
        assert(cs2.drop_first() =~= cs);
        assert(!keeps(cs[0], cs[0]));
        assert(staircase(cs[0], cs) == staircase(cs[0], cs.drop_first()));
        assert(limited_points(x, rest2) == limited_points(x, rest));
    } else {
        assert(cs2[0] == cs[0]);
        lemma_insert_drop_first(cs, k, cs[k]);
        assert(cs[k] == cs.drop_first()[k - 1]);
        lemma_staircase_dup(cs[0], cs.drop_first(), k - 1);
        assert(limited_points(x, rest2) == limited_points(x, rest));
    }
}

/// The sweep computes the same value as the case split on point count: the
/// base cases are the zero-, one- and two-point sweeps written out.
proof fn lemma_hv_rec_eq_sweep(s: Seq<Seq<i64>>, ref_pt: Seq<i64>, dim: nat)
    requires
        uniform_dims(s, dim),
    ensures
        hv_rec(s, ref_pt) == sweep(s, ref_pt),
{
    let e = Seq::<Seq<i64>>::empty();
    if s.len() == 1 {
        assert(s.drop_first() =~= e);
        assert(limited_points(s[0], e) =~= e);
        assert(sweep(s, ref_pt) == exclusive_hv(s[0], e, ref_pt));
        assert(hv_rec(e, ref_pt) == sweep(e, ref_pt));
        assert(exclusive_hv(s[0], e, ref_pt) == box_volume(s[0], ref_pt));
    } else if s.len() == 2 {
        let a = s[0];
        let b = s[1];
        assert(s.drop_first() =~= seq![b]);
        assert(seq![b].drop_first() =~= e);
        assert(limited_points(b, e) =~= e);
        assert(hv_rec(e, ref_pt) == sweep(e, ref_pt));
        assert(exclusive_hv(b, e, ref_pt) == box_volume(b, ref_pt));
        let cs = intersection_corners(a, seq![b]);
        assert(cs[0] == max_corner(b, a));
        assert(cs.drop_first() =~= e);
        assert(staircase(cs[0], e) == e);
        assert(limited_points(a, seq![b]) =~= seq![max_corner(b, a)]);
        assert(hv_rec(seq![max_corner(b, a)], ref_pt) == box_volume(max_corner(b, a), ref_pt));
        lemma_max_corner_comm(a, b);
        assert(exclusive_hv(a, seq![b], ref_pt) == box_volume(a, ref_pt) - box_volume(
            max_corner(a, b),
            ref_pt,
        ));
        assert(sweep(e, ref_pt) == 0);
        assert(sweep(seq![b], ref_pt) == exclusive_hv(b, e, ref_pt));
        assert(sweep(s, ref_pt) == exclusive_hv(a, seq![b], ref_pt) + sweep(seq![b], ref_pt));
    }
}

/// Duplicating one point in place does not change the sweep.
proof fn lemma_sweep_dup(t: Seq<Seq<i64>>, j: int, ref_pt: Seq<i64>, dim: nat)
    requires
        0 <= j < t.len(),
        uniform_dims(t, dim),
    ensures
        sweep(t.insert(j, t[j]), ref_pt) == sweep(t, ref_pt),
    decreases j,
{
    let t2 = t.insert(j, t[j]);
    t.insert_ensures(j, t[j]);
    lemma_uniform_drop_first(t, dim);
    if j == 0 {
        let p = t[0];
        assert(t2[0] == p);
        assert(t2.drop_first() =~= t);
        assert(t =~= seq![p] + t.drop_first());
        lemma_exclusive_self_first(p, t.drop_first(), ref_pt, dim);
        assert(exclusive_hv(p, t, ref_pt) == 0);
        assert(sweep(t2, ref_pt) == exclusive_hv(p, t, ref_pt) + sweep(t, ref_pt));
    } else {
        assert(t2[0] == t[0]);
        lemma_insert_drop_first(t, j, t[j]);
        assert(t[j] == t.drop_first()[j - 1]);
        assert(t2.drop_first() == t.drop_first().insert(j - 1, t.drop_first()[j - 1]));
        lemma_sweep_dup(t.drop_first(), j - 1, ref_pt, dim);
        lemma_exclusive_dup(t[0], t.drop_first(), j - 1, ref_pt);
        assert(sweep(t2, ref_pt) == exclusive_hv(t[0], t2.drop_first(), ref_pt) + sweep(
            t2.drop_first(),
            ref_pt,
        ));
    }
}

/// Appending a duplicate of a point already in the set does not change the
/// hypervolume.
pub proof fn lemma_compute_duplicate(s: Seq<Seq<i64>>, p: Seq<i64>, ref_pt: Seq<i64>)
    requires
        s.contains(p),
        uniform_dims(s, ref_pt.len()),
    ensures
        spec_compute(s.push(p), ref_pt) == spec_compute(s, ref_pt),
{
    broadcast use group_to_multiset_ensures;

    let leq = lex_leq_fn();
    lemma_lex_total_ordering();
    s.lemma_sort_by_ensures(leq);
    let t = s.sort_by(leq);
    assert(s.to_multiset().count(p) > 0);
    assert(t.to_multiset() == s.to_multiset());
    assert(t.contains(p));
    let j = choose|j: int| 0 <= j < t.len() && t[j] == p;
    assert forall|k: int| 0 <= k < j implies lex_leq(#[trigger] t[k], p) by {
        assert(leq(t[k], t[j]));
    }
    lemma_lex_reflexive(p);
    assert(leq(p, t[j]));
    lemma_sorted_insert(t, j, p);
    let t2 = t.insert(j, p);
    vstd::seq_lib::to_multiset_insert(t, j, p);
    vstd::seq_lib::to_multiset_build(s, p);
    let s2 = s.push(p);
    s2.lemma_sort_by_ensures(leq);
    assert(t2.to_multiset() == s2.to_multiset());
    lemma_sorted_unique(t2, s2.sort_by(leq), leq);
    assert(s2.sort_by(leq) =~= t2);
    lemma_uniform_dims_multiset(s, t, ref_pt.len());
    let i0 = choose|i: int| 0 <= i < s.len() && s[i] == p;
    assert(p.len() == ref_pt.len());
    t.insert_ensures(j, p);
    assert forall|k: int| 0 <= k < t2.len() implies (#[trigger] t2[k]).len() == ref_pt.len() by {
        if k < j {
            assert(t2[k] == t[k]);
        } else if k == j {
        } else {
            assert(t2[k] == t[k - 1]);
        }
    }
    lemma_hv_rec_eq_sweep(t2, ref_pt, ref_pt.len());
    lemma_hv_rec_eq_sweep(t, ref_pt, ref_pt.len());
    lemma_sweep_dup(t, j, ref_pt, ref_pt.len());
}

/// A point whose box lies inside the box of another point adds nothing: with
/// points oriented below the reference point, if `p` dominates `q` on every
/// axis then the pair covers exactly what `p` covers alone.
pub proof fn lemma_compute_dominated_pair(p: Seq<i64>, q: Seq<i64>, ref_pt: Seq<i64>)
    requires
        p.len() == q.len(),
        q.len() == ref_pt.len(),
        forall|i: int| 0 <= i < ref_pt.len() ==> #[trigger] p[i] <= q[i] && q[i] <= ref_pt[i],
    ensures
        spec_compute(seq![p, q], ref_pt) == spec_compute(seq![p], ref_pt),
{
    lemma_compute_pair(p, q, ref_pt);
    assert(max_corner(p, q) =~= q);
    lemma_compute_single(p, ref_pt);
}

} // verus!
