//! The canonical order of a point set.
//!
//! Points are sorted lexicographically. That order is total, so the sorted
//! sequence is a function of the multiset of points alone — which is what
//! makes the hypervolume invariant under permutation of its input — and it
//! refines the ascending order by first coordinate that the sweep depends on.

use vstd::prelude::*;
use vstd::relations::{antisymmetric, reflexive, sorted_by, strongly_connected, total_ordering,
    transitive};
use vstd::seq_lib::group_to_multiset_ensures;
use vstd::seq_lib::lemma_sorted_unique;
use crate::model::{lex_leq, lex_leq_fn, uniform_dims};

verus! {

pub proof fn lemma_lex_reflexive(a: Seq<i64>)
    ensures
        lex_leq(a, a),
    decreases a.len(),
{
    if a.len() > 0 {
        lemma_lex_reflexive(a.drop_first());
    }
}

pub proof fn lemma_lex_antisymmetric(a: Seq<i64>, b: Seq<i64>)
    requires
        lex_leq(a, b),
        lex_leq(b, a),
    ensures
        a == b,
    decreases a.len(),
{
    if a.len() == 0 {
        assert(b.len() == 0);
        assert(a =~= b);
    } else {
        assert(a[0] == b[0]);
        lemma_lex_antisymmetric(a.drop_first(), b.drop_first());
        assert(a.len() == b.len());
        assert forall|k: int| 0 <= k < a.len() implies a[k] == b[k] by {
            if k > 0 {
                assert(a[k] == a.drop_first()[k - 1]);
                assert(b[k] == b.drop_first()[k - 1]);
            }
        }
        assert(a =~= b);
    }
}

pub proof fn lemma_lex_transitive(a: Seq<i64>, b: Seq<i64>, c: Seq<i64>)
    requires
        lex_leq(a, b),
        lex_leq(b, c),
    ensures
        lex_leq(a, c),
    decreases a.len(),
{
    if a.len() > 0 && b.len() > 0 && c.len() > 0 && a[0] == b[0] && b[0] == c[0] {
        lemma_lex_transitive(a.drop_first(), b.drop_first(), c.drop_first());
    }
}

pub proof fn lemma_lex_connected(a: Seq<i64>, b: Seq<i64>)
    ensures
        lex_leq(a, b) || lex_leq(b, a),
    decreases a.len(),
{
    if a.len() > 0 && b.len() > 0 && a[0] == b[0] {
        lemma_lex_connected(a.drop_first(), b.drop_first());
    }
}

pub proof fn lemma_lex_total_ordering()
    ensures
        total_ordering(lex_leq_fn()),
{
    let leq = lex_leq_fn();
    assert forall|a: Seq<i64>| #[trigger] leq(a, a) by {
        lemma_lex_reflexive(a);
    }
    assert(reflexive(leq));
    assert forall|a: Seq<i64>, b: Seq<i64>| #[trigger] leq(a, b) && #[trigger] leq(b, a)
        implies a == b by {
        lemma_lex_antisymmetric(a, b);
    }
    assert(antisymmetric(leq));
    assert forall|a: Seq<i64>, b: Seq<i64>, c: Seq<i64>|
        #[trigger] leq(a, b) && #[trigger] leq(b, c) implies leq(a, c) by {
        lemma_lex_transitive(a, b, c);
    }
    assert(transitive(leq));
    assert forall|a: Seq<i64>, b: Seq<i64>| #[trigger] leq(a, b) || #[trigger] leq(b, a) by {
        lemma_lex_connected(a, b);
    }
    assert(strongly_connected(leq));
}

/// Sharing one multiset, two point sequences have points of the same
/// dimension.
pub proof fn lemma_uniform_dims_multiset(s: Seq<Seq<i64>>, t: Seq<Seq<i64>>, dim: nat)
    requires
        uniform_dims(s, dim),
        s.to_multiset() == t.to_multiset(),
    ensures
        uniform_dims(t, dim),
{
    broadcast use group_to_multiset_ensures;

    assert forall|i: int| 0 <= i < t.len() implies (#[trigger] t[i]).len() == dim by {
        assert(t.contains(t[i]));
        assert(t.to_multiset().count(t[i]) > 0);
        assert(s.to_multiset().count(t[i]) > 0);
        assert(s.contains(t[i]));
        let j = choose|j: int| 0 <= j < s.len() && s[j] == t[i];
        assert(s[j].len() == dim);
    }
}

/// Lexicographic comparison of two points.
pub fn lex_le(pt0: &Vec<i64>, pt1: &Vec<i64>) -> (r: bool)
    ensures
        r == lex_leq(pt0@, pt1@),
{
    proof {
        assert(pt0@.skip(0) =~= pt0@);
        assert(pt1@.skip(0) =~= pt1@);
    }
    let mut i: usize = 0;
    while i < pt0.len() && i < pt1.len()
        invariant
            i <= pt0@.len(),
            i <= pt1@.len(),
            lex_leq(pt0@, pt1@) == lex_leq(pt0@.skip(i as int), pt1@.skip(i as int)),
        decreases pt0@.len() - i,
    {
        proof {
            assert(pt0@.skip(i as int)[0] == pt0@[i as int]);
            assert(pt1@.skip(i as int)[0] == pt1@[i as int]);
            assert(pt0@.skip(i as int).drop_first() =~= pt0@.skip(i as int + 1));
            assert(pt1@.skip(i as int).drop_first() =~= pt1@.skip(i as int + 1));
        }
        if pt0[i] < pt1[i] {
            return true;
        }
        if pt0[i] > pt1[i] {
            return false;
        }
        i += 1;
    }
    i >= pt0.len()
}

/// Element-by-element copy of a point.
pub fn point_copy(pt: &Vec<i64>) -> (out: Vec<i64>)
    ensures
        out@ == pt@,
{
    let mut out: Vec<i64> = Vec::new();
    let mut i: usize = 0;
    while i < pt.len()
        invariant
            i <= pt@.len(),
            out@ == pt@.take(i as int),
        decreases pt@.len() - i,
    {
        out.push(pt[i]);
        proof {
            assert(pt@.take(i as int).push(pt@[i as int]) =~= pt@.take(i as int + 1));
        }
        i += 1;
    }
    proof {
        assert(pt@.take(pt@.len() as int) =~= pt@);
    }
    out
}

/// The deep view of a point vector indexes to the views of its points.
pub proof fn lemma_points_deep_view(v: Vec<Vec<i64>>)
    ensures
        v.deep_view().len() == v@.len(),
        forall|i: int| 0 <= i < v@.len() ==> v.deep_view()[i] == v@[i]@,
{
    assert forall|i: int| 0 <= i < v@.len() implies v.deep_view()[i] == v@[i]@ by {
        assert(v@[i].deep_view() =~= v@[i]@);
    }
}

/// Inserting a point at its scan position keeps a point sequence sorted.
pub proof fn lemma_sorted_insert(pre: Seq<Seq<i64>>, j: int, x: Seq<i64>)
    requires
        sorted_by(pre, lex_leq_fn()),
        0 <= j <= pre.len(),
        forall|k: int| 0 <= k < j ==> lex_leq(#[trigger] pre[k], x),
        j < pre.len() ==> lex_leq(x, pre[j]),
    ensures
        sorted_by(pre.insert(j, x), lex_leq_fn()),
{
    pre.insert_ensures(j, x);
    let now = pre.insert(j, x);
    let leq = lex_leq_fn();
    assert forall|a: int, b: int|
        0 <= a < b < now.len() implies #[trigger] leq(now[a], now[b]) by {
        if b < j {
            assert(leq(pre[a], pre[b]));
        } else if a < j && b == j {
            assert(now[a] == pre[a]);
            assert(now[b] == x);
        } else if a < j && b > j {
            assert(now[a] == pre[a]);
            assert(now[b] == pre[b - 1]);
            if a == b - 1 {
                lemma_lex_reflexive(pre[a]);
            } else {
                assert(leq(pre[a], pre[b - 1]));
            }
        } else if a == j {
            assert(now[a] == x);
            assert(now[b] == pre[b - 1]);
            assert(j < pre.len());
            assert(leq(x, pre[j]));
            if b - 1 > j {
                assert(leq(pre[j], pre[b - 1]));
                lemma_lex_transitive(x, pre[j], pre[b - 1]);
            }
        } else {
            assert(now[a] == pre[a - 1]);
            assert(now[b] == pre[b - 1]);
            assert(leq(pre[a - 1], pre[b - 1]));
        }
    }
}

/// Copy of the point set, brought into the canonical lexicographic order by
/// insertion sort.
pub fn sorted_points(pts: &Vec<Vec<i64>>) -> (out: Vec<Vec<i64>>)
    ensures
        out.deep_view() == pts.deep_view().sort_by(lex_leq_fn()),
{
    broadcast use group_to_multiset_ensures;

    let ghost all = pts.deep_view();
    let mut out: Vec<Vec<i64>> = Vec::new();
    let mut i: usize = 0;
    while i < pts.len()
        invariant
            i <= pts@.len(),
            all == pts.deep_view(),
            all.len() == pts@.len(),
            sorted_by(out.deep_view(), lex_leq_fn()),
            out.deep_view().to_multiset() == all.take(i as int).to_multiset(),
        decreases pts@.len() - i,
    {
        let x = point_copy(&pts[i]);
        let ghost xv = x@;
        proof {
            lemma_points_deep_view(*pts);
            assert(xv == all[i as int]);
            lemma_points_deep_view(out);
        }
        let mut j: usize = 0;
        while j < out.len() && lex_le(&out[j], &x)
            invariant
                j <= out@.len(),
                xv == x@,
                out.deep_view().len() == out@.len(),
                forall|i0: int| 0 <= i0 < out@.len() ==> out.deep_view()[i0] == out@[i0]@,
                forall|k: int| 0 <= k < j ==> lex_leq(#[trigger] out.deep_view()[k], xv),
            decreases out@.len() - j,
        {
            j += 1;
        }
        let ghost pre = out.deep_view();
        let ghost preseq = out@;
        let ghost xvec = x;
        proof {
            if j < out@.len() {
                lemma_lex_connected(pre[j as int], xv);
            }
            lemma_sorted_insert(pre, j as int, xv);
            preseq.insert_ensures(j as int, xvec);
            pre.insert_ensures(j as int, xv);
        }
        out.insert(j, x);
        proof {
            lemma_points_deep_view(out);
            assert(out@ == preseq.insert(j as int, xvec));
            assert forall|k: int| 0 <= k < out.deep_view().len() implies out.deep_view()[k]
                == pre.insert(j as int, xv)[k] by {
                assert(out.deep_view()[k] == out@[k]@);
            }
            assert(out.deep_view() =~= pre.insert(j as int, xv));
            vstd::seq_lib::to_multiset_insert(pre, j as int, xv);
            assert(all.take(i as int + 1) =~= all.take(i as int).push(xv));
            vstd::seq_lib::to_multiset_build(all.take(i as int), xv);
        }
        i += 1;
    }
    proof {
        assert(all.take(all.len() as int) =~= all);
        lemma_lex_total_ordering();
        all.lemma_sort_by_ensures(lex_leq_fn());
        lemma_sorted_unique(out.deep_view(), all.sort_by(lex_leq_fn()), lex_leq_fn());
        assert(out.deep_view() =~= all.sort_by(lex_leq_fn()));
    }
    out
}

} // verus!
